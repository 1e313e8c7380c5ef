//! Geometry primitives: fixed-point vectors, rotations, convex-hull
//! construction and the separating-axis overlap test.

use vstd::prelude::*;
use crate::fixed::{clip, fx_wf, s_add, s_sub, s_mul, fx_add, fx_sub, fx_mul, fx_neg};

verus! {

/// A 2D point or vector, fixed-point raw coordinates.
#[derive(Clone, Copy, PartialEq, Eq, Structural, Debug)]
pub struct Vec2 {
    pub x: i64,
    pub y: i64,
}

/// Both coordinates lie in the representable band.
pub open spec fn v2_wf(v: Vec2) -> bool {
    fx_wf(v.x) && fx_wf(v.y)
}

/// Every point of a sequence is well-formed.
pub open spec fn pts_wf(s: Seq<Vec2>) -> bool {
    forall|i: int| 0 <= i < s.len() ==> v2_wf(#[trigger] s[i])
}

/// A rotation, held as the fixed-point cosine and sine of its angle.
#[derive(Clone, Copy, PartialEq, Eq, Structural, Debug)]
pub struct Rot {
    pub cos: i64,
    pub sin: i64,
}

/// Both components lie in the representable band.
pub open spec fn rot_wf(r: Rot) -> bool {
    fx_wf(r.cos) && fx_wf(r.sin)
}

/// The x component of `p` rotated by `r`.
pub open spec fn s_rot_x(p: Vec2, r: Rot) -> int {
    s_sub(s_mul(p.x as int, r.cos as int), s_mul(p.y as int, r.sin as int))
}

/// The y component of `p` rotated by `r`.
pub open spec fn s_rot_y(p: Vec2, r: Rot) -> int {
    s_add(s_mul(p.x as int, r.sin as int), s_mul(p.y as int, r.cos as int))
}

/// Fixed-point dot product of two vectors.
pub open spec fn s_dot(a: Vec2, b: Vec2) -> int {
    s_add(s_mul(a.x as int, b.x as int), s_mul(a.y as int, b.y as int))
}

/// Exact (unscaled) cross product of `a - o` and `b - o`: positive when
/// the triple `o, a, b` makes a strictly counter-clockwise turn.
pub open spec fn cross3(o: Vec2, a: Vec2, b: Vec2) -> int {
    (a.x - o.x) * (b.y - o.y) - (a.y - o.y) * (b.x - o.x)
}

/// Exact squared distance between two points.
pub open spec fn dist2(o: Vec2, a: Vec2) -> int {
    (a.x - o.x) * (a.x - o.x) + (a.y - o.y) * (a.y - o.y)
}

/// Exact projection of `v` onto the perpendicular of the edge `a -> b`.
pub open spec fn proj(a: Vec2, b: Vec2, v: Vec2) -> int {
    (b.y - a.y) * v.x - (b.x - a.x) * v.y
}

impl Vec2 {
    /// Build a vector from raw fixed-point coordinates.
    pub fn new(x: i64, y: i64) -> (r: Vec2)
        ensures
            r == (Vec2 { x, y }),
    {
        Vec2 { x, y }
    }

    /// Component-wise saturating sum.
    pub fn plus(self, o: Vec2) -> (r: Vec2)
        ensures
            r.x as int == s_add(self.x as int, o.x as int),
            r.y as int == s_add(self.y as int, o.y as int),
            v2_wf(r),
    {
        Vec2 { x: fx_add(self.x, o.x), y: fx_add(self.y, o.y) }
    }

    /// Component-wise saturating difference.
    pub fn minus(self, o: Vec2) -> (r: Vec2)
        ensures
            r.x as int == s_sub(self.x as int, o.x as int),
            r.y as int == s_sub(self.y as int, o.y as int),
            v2_wf(r),
    {
        Vec2 { x: fx_sub(self.x, o.x), y: fx_sub(self.y, o.y) }
    }

    /// Scale both components by the fixed-point factor `k`.
    pub fn scale(self, k: i64) -> (r: Vec2)
        ensures
            r.x as int == s_mul(self.x as int, k as int),
            r.y as int == s_mul(self.y as int, k as int),
            v2_wf(r),
    {
        Vec2 { x: fx_mul(self.x, k), y: fx_mul(self.y, k) }
    }

    /// Fixed-point dot product.
    pub fn dot(self, o: Vec2) -> (r: i64)
        ensures
            r as int == s_dot(self, o),
            fx_wf(r),
    {
        fx_add(fx_mul(self.x, o.x), fx_mul(self.y, o.y))
    }

    /// The perpendicular `(-y, x)`.
    pub fn perp(self) -> (r: Vec2)
        ensures
            r.x as int == clip(-(self.y as int)),
            r.y == self.x,
            fx_wf(r.x),
    {
        Vec2 { x: fx_neg(self.y), y: self.x }
    }

    /// Rotate by `r`: `(x cos - y sin, x sin + y cos)`.
    pub fn rotate(self, r: Rot) -> (w: Vec2)
        ensures
            w.x as int == s_rot_x(self, r),
            w.y as int == s_rot_y(self, r),
            v2_wf(w),
    {
        Vec2 {
            x: fx_sub(fx_mul(self.x, r.cos), fx_mul(self.y, r.sin)),
            y: fx_add(fx_mul(self.x, r.sin), fx_mul(self.y, r.cos)),
        }
    }
}

/// Exact cross product of the turn `o -> a -> b`, as a 128-bit value.
pub fn cross3_val(o: Vec2, a: Vec2, b: Vec2) -> (r: i128)
    requires
        v2_wf(o),
        v2_wf(a),
        v2_wf(b),
    ensures
        r as int == cross3(o, a, b),
{
    let d1x: i128 = a.x as i128 - o.x as i128;
    let d1y: i128 = a.y as i128 - o.y as i128;
    let d2x: i128 = b.x as i128 - o.x as i128;
    let d2y: i128 = b.y as i128 - o.y as i128;
    proof {
        assert(d1x * d2y <= 0x7fff_ffff_ffff_fffe * 0x7fff_ffff_ffff_fffe
            && d1x * d2y >= -(0x7fff_ffff_ffff_fffe * 0x7fff_ffff_ffff_fffe)
            && d1y * d2x <= 0x7fff_ffff_ffff_fffe * 0x7fff_ffff_ffff_fffe
            && d1y * d2x >= -(0x7fff_ffff_ffff_fffe * 0x7fff_ffff_ffff_fffe))
            by (nonlinear_arith)
            requires
                -0x7fff_ffff_ffff_fffe <= d1x as int <= 0x7fff_ffff_ffff_fffe,
                -0x7fff_ffff_ffff_fffe <= d1y as int <= 0x7fff_ffff_ffff_fffe,
                -0x7fff_ffff_ffff_fffe <= d2x as int <= 0x7fff_ffff_ffff_fffe,
                -0x7fff_ffff_ffff_fffe <= d2y as int <= 0x7fff_ffff_ffff_fffe;
    }
    d1x * d2y - d1y * d2x
}

/// Exact squared distance between two points, as a 128-bit value.
pub fn dist2_val(o: Vec2, a: Vec2) -> (r: i128)
    requires
        v2_wf(o),
        v2_wf(a),
    ensures
        r as int == dist2(o, a),
{
    let dx: i128 = a.x as i128 - o.x as i128;
    let dy: i128 = a.y as i128 - o.y as i128;
    proof {
        assert(0 <= dx * dx <= 0x7fff_ffff_ffff_fffe * 0x7fff_ffff_ffff_fffe
            && 0 <= dy * dy <= 0x7fff_ffff_ffff_fffe * 0x7fff_ffff_ffff_fffe)
            by (nonlinear_arith)
            requires
                -0x7fff_ffff_ffff_fffe <= dx as int <= 0x7fff_ffff_ffff_fffe,
                -0x7fff_ffff_ffff_fffe <= dy as int <= 0x7fff_ffff_ffff_fffe;
    }
    dx * dx + dy * dy
}

/// Exact projection of `v` onto the perpendicular of the edge `a -> b`,
/// as a 128-bit value.
pub fn proj_val(a: Vec2, b: Vec2, v: Vec2) -> (r: i128)
    requires
        v2_wf(a),
        v2_wf(b),
        v2_wf(v),
    ensures
        r as int == proj(a, b, v),
{
    let ex: i128 = b.x as i128 - a.x as i128;
    let ey: i128 = b.y as i128 - a.y as i128;
    proof {
        assert(ey * (v.x as int) <= 0x7fff_ffff_ffff_fffe * 0x3fff_ffff_ffff_ffff
            && ey * (v.x as int) >= -(0x7fff_ffff_ffff_fffe * 0x3fff_ffff_ffff_ffff)
            && ex * (v.y as int) <= 0x7fff_ffff_ffff_fffe * 0x3fff_ffff_ffff_ffff
            && ex * (v.y as int) >= -(0x7fff_ffff_ffff_fffe * 0x3fff_ffff_ffff_ffff))
            by (nonlinear_arith)
            requires
                -0x7fff_ffff_ffff_fffe <= ex as int <= 0x7fff_ffff_ffff_fffe,
                -0x7fff_ffff_ffff_fffe <= ey as int <= 0x7fff_ffff_ffff_fffe,
                -0x3fff_ffff_ffff_ffff <= v.x as int <= 0x3fff_ffff_ffff_ffff,
                -0x3fff_ffff_ffff_ffff <= v.y as int <= 0x3fff_ffff_ffff_ffff;
    }
    ey * (v.x as i128) - ex * (v.y as i128)
}

/// The (y, then x) order used to pick the hull's starting vertex.
pub open spec fn lex_le(a: Vec2, b: Vec2) -> bool {
    a.y < b.y || (a.y == b.y && a.x <= b.x)
}

/// `a` strictly precedes `b` by polar angle about `p0` (ties by distance).
pub open spec fn angle_lt(p0: Vec2, a: Vec2, b: Vec2) -> bool {
    cross3(p0, a, b) > 0 || (cross3(p0, a, b) == 0 && dist2(p0, a) < dist2(p0, b))
}

/// `a` lies strictly after `o` in the (y, then x) order: in the open
/// upper half-plane of `o`, or on its rightward horizontal ray. All
/// points the hull scan orders about its anchor lie here, which is what
/// makes the angular order below total and transitive.
pub open spec fn above(o: Vec2, a: Vec2) -> bool {
    a.y > o.y || (a.y == o.y && a.x > o.x)
}

/// The cross product is antisymmetric in its two rays.
pub proof fn lemma_cross3_antisym(o: Vec2, a: Vec2, b: Vec2)
    ensures
        cross3(o, a, b) == -cross3(o, b, a),
{
    assert((a.x - o.x) * (b.y - o.y) - (a.y - o.y) * (b.x - o.x) == -((b.x - o.x) * (a.y - o.y)
        - (b.y - o.y) * (a.x - o.x))) by (nonlinear_arith);
}

/// The angular order about `o` is transitive on points above `o`.
pub proof fn lemma_angle_lt_trans(o: Vec2, a: Vec2, b: Vec2, c: Vec2)
    requires
        above(o, a),
        above(o, b),
        above(o, c),
        angle_lt(o, a, b),
        angle_lt(o, b, c),
    ensures
        angle_lt(o, a, c),
{
    let ux = a.x - o.x;
    let uy = a.y - o.y;
    let vx = b.x - o.x;
    let vy = b.y - o.y;
    let wx = c.x - o.x;
    let wy = c.y - o.y;
    assert(uy >= 0 && (uy == 0 ==> ux > 0));
    assert(vy >= 0 && (vy == 0 ==> vx > 0));
    assert(wy >= 0 && (wy == 0 ==> wx > 0));
    assert(cross3(o, a, b) == ux * vy - uy * vx);
    assert(cross3(o, b, c) == vx * wy - vy * wx);
    assert(cross3(o, a, c) == ux * wy - uy * wx);
    assert(dist2(o, a) == ux * ux + uy * uy);
    assert(dist2(o, b) == vx * vx + vy * vy);
    assert(dist2(o, c) == wx * wx + wy * wy);
    assert((ux * vy - uy * vx > 0 || (ux * vy - uy * vx == 0 && ux * ux + uy * uy < vx * vx + vy
        * vy)) && (vx * wy - vy * wx > 0 || (vx * wy - vy * wx == 0 && vx * vx + vy * vy < wx * wx
        + wy * wy)) ==> (ux * wy - uy * wx > 0 || (ux * wy - uy * wx == 0 && ux * ux + uy * uy
        < wx * wx + wy * wy))) by (nonlinear_arith)
        requires
            uy >= 0 && (uy == 0 ==> ux > 0),
            vy >= 0 && (vy == 0 ==> vx > 0),
            wy >= 0 && (wy == 0 ==> wx > 0);
}

/// Moving the apex of a cross-product triple: the turn at `a` expressed
/// through turns at a common apex `o`.
pub proof fn lemma_cross3_apex(o: Vec2, a: Vec2, b: Vec2, c: Vec2)
    ensures
        cross3(a, b, c) == cross3(o, b, c) - cross3(o, a, c) + cross3(o, a, b),
{
    assert((b.x - a.x) * (c.y - a.y) - (b.y - a.y) * (c.x - a.x) == ((b.x - o.x) * (c.y - o.y) - (
    b.y - o.y) * (c.x - o.x)) - ((a.x - o.x) * (c.y - o.y) - (a.y - o.y) * (c.x - o.x)) + ((a.x
        - o.x) * (b.y - o.y) - (a.y - o.y) * (b.x - o.x))) by (nonlinear_arith);
}

/// Any 2D vector resolves along two others: coordinate identities for
/// the cross products involved.
proof fn lemma_cross_resolve(ax: int, ay: int, bx: int, by: int, cx: int, cy: int)
    ensures
        (ax * by - ay * bx) * cx == (ax * cy - ay * cx) * bx - (bx * cy - by * cx) * ax,
        (ax * by - ay * bx) * cy == (ax * cy - ay * cx) * by - (bx * cy - by * cx) * ay,
{
    assert((ax * by - ay * bx) * cx == (ax * cy - ay * cx) * bx - (bx * cy - by * cx) * ax)
        by (nonlinear_arith);
    assert((ax * by - ay * bx) * cy == (ax * cy - ay * cx) * by - (bx * cy - by * cx) * ay)
        by (nonlinear_arith);
}

/// Multiplying out one cross product against a scalar pair.
proof fn lemma_cross_dist(k: int, cx: int, cy: int, dx: int, dy: int)
    ensures
        k * (cx * dy - cy * dx) == (k * cx) * dy - (k * cy) * dx,
{
    assert(k * (cx * dy - cy * dx) == (k * cx) * dy - (k * cy) * dx) by (nonlinear_arith);
}

/// Regrouping a bilinear combination.
proof fn lemma_cross_regroup(pq: int, qq: int, ax: int, ay: int, bx: int, by: int, dx: int, dy: int)
    ensures
        (pq * bx - qq * ax) * dy - (pq * by - qq * ay) * dx == pq * (bx * dy - by * dx) - qq * (ax
            * dy - ay * dx),
{
    assert((pq * bx - qq * ax) * dy == (pq * bx) * dy - (qq * ax) * dy) by (nonlinear_arith);
    assert((pq * by - qq * ay) * dx == (pq * by) * dx - (qq * ay) * dx) by (nonlinear_arith);
    assert((pq * bx) * dy == pq * (bx * dy)) by (nonlinear_arith);
    assert((qq * ax) * dy == qq * (ax * dy)) by (nonlinear_arith);
    assert((pq * by) * dx == pq * (by * dx)) by (nonlinear_arith);
    assert((qq * ay) * dx == qq * (ay * dx)) by (nonlinear_arith);
    assert(pq * (bx * dy - by * dx) == pq * (bx * dy) - pq * (by * dx)) by (nonlinear_arith);
    assert(qq * (ax * dy - ay * dx) == qq * (ax * dy) - qq * (ay * dx)) by (nonlinear_arith);
}

/// The Grassmann-Pluecker relation for four 2D vectors: any three are
/// linearly dependent, so the six pairwise cross products satisfy one
/// quadratic identity.
pub proof fn lemma_plucker_vec(
    ax: int,
    ay: int,
    bx: int,
    by: int,
    cx: int,
    cy: int,
    dx: int,
    dy: int,
)
    ensures
        (ax * by - ay * bx) * (cx * dy - cy * dx) - (ax * cy - ay * cx) * (bx * dy - by * dx) + (
        ax * dy - ay * dx) * (bx * cy - by * cx) == 0,
{
    let ab = ax * by - ay * bx;
    let ac = ax * cy - ay * cx;
    let bc = bx * cy - by * cx;
    // Resolve c along a and b, coordinate by coordinate, then recombine.
    lemma_cross_resolve(ax, ay, bx, by, cx, cy);
    lemma_cross_dist(ab, cx, cy, dx, dy);
    lemma_cross_regroup(ac, bc, ax, ay, bx, by, dx, dy);
    assert(ab * (cx * dy - cy * dx) == ac * (bx * dy - by * dx) - bc * (ax * dy - ay * dx));
    assert(bc * (ax * dy - ay * dx) == (ax * dy - ay * dx) * bc) by (nonlinear_arith);
}

/// `lemma_plucker_vec`, for four rays out of a common apex point.
pub proof fn lemma_plucker(o: Vec2, a: Vec2, b: Vec2, c: Vec2, d: Vec2)
    ensures
        cross3(o, a, b) * cross3(o, c, d) - cross3(o, a, c) * cross3(o, b, d) + cross3(o, a, d)
            * cross3(o, b, c) == 0,
{
    lemma_plucker_vec(
        a.x - o.x,
        a.y - o.y,
        b.x - o.x,
        b.y - o.y,
        c.x - o.x,
        c.y - o.y,
        d.x - o.x,
        d.y - o.y,
    );
}

/// Splitting a product against a sum of squares.
proof fn lemma_sq_split(w: int, sx: int, sy: int)
    ensures
        w * (sx * sx + sy * sy) == (w * sx) * sx + (w * sy) * sy,
{
    assert(w * (sx * sx + sy * sy) == (w * sx) * sx + (w * sy) * sy) by (nonlinear_arith);
}

/// For parallel `s` and `q`, the cross with any `p` rescales by the dot.
proof fn lemma_parallel_scale(sx: int, sy: int, px: int, py: int, qx: int, qy: int)
    requires
        sx * qy == sy * qx,
    ensures
        (px * qy - py * qx) * (sx * sx + sy * sy) == (px * sy - py * sx) * (sx * qx + sy * qy),
{
    assert((px * qy - py * qx) * sx == qx * (px * sy - py * sx)) by (nonlinear_arith)
        requires
            sx * qy == sy * qx;
    assert((px * qy - py * qx) * sy == qy * (px * sy - py * sx)) by (nonlinear_arith)
        requires
            sx * qy == sy * qx;
    lemma_sq_split(px * qy - py * qx, sx, sy);
    assert((qx * (px * sy - py * sx)) * sx + (qy * (px * sy - py * sx)) * sy == (px * sy - py
        * sx) * (sx * qx + sy * qy)) by (nonlinear_arith);
}

/// For parallel `t` and `q`, the Cauchy-Schwarz bound is an equality.
proof fn lemma_parallel_dot_sq(tx: int, ty: int, qx: int, qy: int)
    requires
        tx * qy == ty * qx,
    ensures
        (tx * qx + ty * qy) * (tx * qx + ty * qy) == (tx * tx + ty * ty) * (qx * qx + qy * qy),
{
    assert((tx * qx + ty * qy) * qx == tx * (qx * qx + qy * qy)) by (nonlinear_arith)
        requires
            tx * qy == ty * qx;
    assert((tx * qx + ty * qy) * qy == ty * (qx * qx + qy * qy)) by (nonlinear_arith)
        requires
            tx * qy == ty * qx;
    assert((tx * qx + ty * qy) * (tx * qx + ty * qy) == ((tx * qx + ty * qy) * qx) * tx + ((tx
        * qx + ty * qy) * qy) * ty) by (nonlinear_arith);
    assert((tx * (qx * qx + qy * qy)) * tx + (ty * (qx * qx + qy * qy)) * ty == (tx * tx + ty
        * ty) * (qx * qx + qy * qy)) by (nonlinear_arith);
}

/// Two vectors on one upward ray have a positive dot product.
proof fn lemma_same_ray_dot_pos(sx: int, sy: int, px: int, py: int)
    requires
        sx * py == sy * px,
        sy > 0 || (sy == 0 && sx > 0),
        py > 0 || (py == 0 && px > 0),
    ensures
        sx * px + sy * py > 0,
{
    if sy > 0 {
        if py > 0 {
            assert((sx * px) * (sy * py) == (sy * px) * (sy * px)) by (nonlinear_arith)
                requires
                    sx * py == sy * px;
            assert(sy * py > 0) by (nonlinear_arith)
                requires
                    sy > 0 && py > 0;
            assert(sx * px >= 0) by (nonlinear_arith)
                requires
                    (sx * px) * (sy * py) == (sy * px) * (sy * px) && sy * py > 0;
        } else {
            assert(false) by (nonlinear_arith)
                requires
                    sx * py == sy * px && sy > 0 && py == 0 && px > 0;
        }
    } else {
        assert(py == 0) by (nonlinear_arith)
            requires
                sx * py == sy * px && sy == 0 && sx > 0 && (py > 0 || (py == 0 && px > 0));
        assert(sx * px > 0) by (nonlinear_arith)
            requires
                sx > 0 && px > 0;
    }
}

/// Two points on one ray out of `o` see every third point on the same
/// side: left-of-ray transfers along the ray.
pub proof fn lemma_ray_transfer(o: Vec2, sp: Vec2, pp: Vec2, qp: Vec2)
    requires
        above(o, sp),
        above(o, pp),
        cross3(o, sp, pp) == 0,
        cross3(o, sp, qp) >= 0,
    ensures
        cross3(o, pp, qp) >= 0,
{
    let sx = sp.x - o.x;
    let sy = sp.y - o.y;
    let px = pp.x - o.x;
    let py = pp.y - o.y;
    let qx = qp.x - o.x;
    let qy = qp.y - o.y;
    lemma_same_ray_dot_pos(sx, sy, px, py);
    lemma_parallel_scale(sx, sy, qx, qy, px, py);
    assert((qx * py - qy * px) * (sx * sx + sy * sy) == (qx * sy - qy * sx) * (sx * px + sy * py));
    assert(cross3(o, pp, qp) == -(qx * py - qy * px)) by (nonlinear_arith)
        requires
            cross3(o, pp, qp) == px * qy - py * qx && qx == qp.x - o.x && qy == qp.y - o.y && px
                == pp.x - o.x && py == pp.y - o.y;
    assert(cross3(o, sp, qp) == -(qx * sy - qy * sx)) by (nonlinear_arith)
        requires
            cross3(o, sp, qp) == sx * qy - sy * qx;
    assert(sx * sx + sy * sy > 0) by (nonlinear_arith)
        requires
            sy > 0 || (sy == 0 && sx > 0);
    assert(cross3(o, pp, qp) * (sx * sx + sy * sy) == cross3(o, sp, qp) * (sx * px + sy * py))
        by (nonlinear_arith)
        requires
            (qx * py - qy * px) * (sx * sx + sy * sy) == (qx * sy - qy * sx) * (sx * px + sy
                * py),
            cross3(o, pp, qp) == -(qx * py - qy * px),
            cross3(o, sp, qp) == -(qx * sy - qy * sx);
    assert(cross3(o, pp, qp) >= 0) by (nonlinear_arith)
        requires
            cross3(o, pp, qp) * (sx * sx + sy * sy) == cross3(o, sp, qp) * (sx * px + sy * py),
            cross3(o, sp, qp) >= 0,
            sx * px + sy * py > 0,
            sx * sx + sy * sy > 0;
}

/// The step a pop survives on: a point weakly behind the stack top in
/// the angular order, and left of the last chain edge, is left of the
/// new edge the top will make with the incoming point.
pub proof fn lemma_push_left(o: Vec2, up: Vec2, tp: Vec2, pp: Vec2, qp: Vec2)
    requires
        above(o, tp),
        above(o, qp),
        cross3(up, tp, pp) > 0,
        cross3(up, tp, qp) >= 0,
        cross3(o, up, tp) >= 0,
        cross3(o, tp, pp) >= 0,
        !angle_lt(o, tp, qp),
    ensures
        cross3(tp, pp, qp) >= 0,
{
    let k1 = cross3(up, tp, pp);
    let k = cross3(up, tp, qp);
    let a = cross3(o, up, tp);
    let w2 = cross3(o, tp, pp);
    let tq = cross3(o, tp, qp);
    let s2 = cross3(o, up, pp);
    let s2q = cross3(o, up, qp);
    let pq = cross3(o, pp, qp);
    let g = cross3(tp, pp, qp);
    lemma_cross3_apex(o, up, tp, pp);
    lemma_cross3_apex(o, up, tp, qp);
    lemma_cross3_apex(o, tp, pp, qp);
    lemma_plucker(o, up, tp, pp, qp);
    assert(k1 == w2 - s2 + a);
    assert(k == tq - s2q + a);
    assert(g == pq - tq + w2);
    assert(a * pq - s2 * tq + s2q * w2 == 0);
    assert(k1 * tq == k * w2 - g * a) by (nonlinear_arith)
        requires
            k1 == w2 - s2 + a,
            k == tq - s2q + a,
            g == pq - tq + w2,
            a * pq - s2 * tq + s2q * w2 == 0;
    if tq < 0 {
        assert(g * a > 0) by (nonlinear_arith)
            requires
                k1 * tq == k * w2 - g * a,
                k1 > 0,
                tq < 0,
                k >= 0,
                w2 >= 0;
        assert(g > 0) by (nonlinear_arith)
            requires
                g * a > 0,
                a >= 0;
    } else {
        // The angular tie: `qp` sits on the top's own ray, no farther out.
        assert(tq == 0);
        assert(dist2(o, qp) <= dist2(o, tp));
        let tx = tp.x - o.x;
        let ty = tp.y - o.y;
        let qx = qp.x - o.x;
        let qy = qp.y - o.y;
        let tdq = tx * qx + ty * qy;
        assert(tx * qy == ty * qx) by (nonlinear_arith)
            requires
                cross3(o, tp, qp) == tx * qy - ty * qx && cross3(o, tp, qp) == 0;
        lemma_same_ray_dot_pos(tx, ty, qx, qy);
        lemma_parallel_dot_sq(tx, ty, qx, qy);
        assert(tx * tx + ty * ty > 0) by (nonlinear_arith)
            requires
                ty > 0 || (ty == 0 && tx > 0);
        assert(qx * qx + qy * qy <= tx * tx + ty * ty) by (nonlinear_arith)
            requires
                dist2(o, qp) == qx * qx + qy * qy,
                dist2(o, tp) == tx * tx + ty * ty,
                dist2(o, qp) <= dist2(o, tp);
        assert(tdq <= tx * tx + ty * ty) by (nonlinear_arith)
            requires
                tdq * tdq == (tx * tx + ty * ty) * (qx * qx + qy * qy),
                qx * qx + qy * qy <= tx * tx + ty * ty,
                tdq > 0,
                tx * tx + ty * ty > 0;
        let px = pp.x - o.x;
        let py = pp.y - o.y;
        lemma_parallel_scale(tx, ty, px, py, qx, qy);
        assert((px * qy - py * qx) * (tx * tx + ty * ty) == (px * ty - py * tx) * tdq);
        assert(pq == px * qy - py * qx);
        assert(w2 == -(px * ty - py * tx)) by (nonlinear_arith)
            requires
                w2 == tx * py - ty * px;
        assert(g * (tx * tx + ty * ty) == w2 * ((tx * tx + ty * ty) - tdq)) by (nonlinear_arith)
            requires
                g == pq - tq + w2,
                tq == 0,
                pq * (tx * tx + ty * ty) == (-w2) * tdq;
        assert(g >= 0) by (nonlinear_arith)
            requires
                g * (tx * tx + ty * ty) == w2 * ((tx * tx + ty * ty) - tdq),
                w2 >= 0,
                tdq <= tx * tx + ty * ty,
                tx * tx + ty * ty > 0;
    }
}

/// The step a pop takes on a point strictly past the new top in the
/// angular order: left of the popped edge and behind the popped vertex
/// means left of the edge from the new top to the incoming point.
pub proof fn lemma_pop_behind(o: Vec2, yp: Vec2, xp: Vec2, pp: Vec2, qp: Vec2)
    requires
        cross3(o, yp, xp) > 0,
        !angle_lt(o, xp, qp),
        angle_lt(o, yp, qp),
        cross3(yp, xp, qp) >= 0,
        cross3(yp, xp, pp) <= 0,
        cross3(o, xp, pp) >= 0,
        cross3(o, yp, pp) >= 0,
    ensures
        cross3(yp, pp, qp) >= 0,
{
    let a = cross3(o, yp, xp);
    let b = cross3(o, xp, qp);
    let c = cross3(o, yp, qp);
    let d = cross3(o, xp, pp);
    let e = cross3(o, yp, pp);
    let f = cross3(o, pp, qp);
    lemma_cross3_apex(o, yp, xp, qp);
    lemma_cross3_apex(o, yp, xp, pp);
    lemma_cross3_apex(o, yp, pp, qp);
    lemma_plucker(o, yp, xp, pp, qp);
    assert(a * f == e * b - c * d);
    let g = cross3(yp, pp, qp);
    assert(g == f - c + e);
    assert(b - c + a >= 0);
    assert(d - e + a <= 0);
    assert(a * g == e * (a + b) - c * (a + d)) by (nonlinear_arith)
        requires
            a * f == e * b - c * d,
            g == f - c + e;
    if c > 0 {
        assert(a * g >= 0) by (nonlinear_arith)
            requires
                a * g == e * (a + b) - c * (a + d),
                e >= a + d,
                c <= a + b,
                a + d >= 0,
                c > 0,
                e >= 0;
        assert(g >= 0) by (nonlinear_arith)
            requires
                a * g >= 0,
                a > 0;
    } else {
        assert(c == 0);
        assert(a * g >= 0) by (nonlinear_arith)
            requires
                a * g == e * (a + b) - c * (a + d),
                c == 0,
                a + b >= 0,
                e >= 0;
        assert(g >= 0) by (nonlinear_arith)
            requires
                a * g >= 0,
                a > 0;
    }
}

/// Walking down a convex chain: a point left of one chain edge, ahead of
/// the chain in the angular order, is left of the edge below as well.
pub proof fn lemma_chain_step(o: Vec2, up: Vec2, tp: Vec2, vp: Vec2, pp: Vec2)
    requires
        cross3(o, up, tp) >= 0,
        cross3(o, tp, vp) > 0,
        cross3(up, tp, vp) > 0,
        cross3(o, tp, pp) >= 0,
        cross3(o, vp, pp) >= 0,
        cross3(tp, vp, pp) >= 0,
    ensures
        cross3(up, tp, pp) >= 0,
{
    let a1 = cross3(o, up, tp);
    let a2 = cross3(o, tp, vp);
    let uv = cross3(o, up, vp);
    let s1 = cross3(o, tp, pp);
    let s2 = cross3(o, up, pp);
    let s3 = cross3(o, vp, pp);
    lemma_cross3_apex(o, up, tp, vp);
    lemma_cross3_apex(o, tp, vp, pp);
    lemma_cross3_apex(o, up, tp, pp);
    lemma_plucker(o, up, tp, vp, pp);
    assert(uv < a1 + a2);
    assert(a2 + s3 - s1 >= 0);
    let g = cross3(up, tp, pp);
    assert(g == s1 - s2 + a1);
    assert(s2 * a2 == uv * s1 - a1 * s3) by (nonlinear_arith)
        requires
            a1 * s3 - uv * s1 + s2 * a2 == 0;
    assert(g * a2 == s1 * (a2 - uv) + a1 * (a2 + s3)) by (nonlinear_arith)
        requires
            g == s1 - s2 + a1,
            s2 * a2 == uv * s1 - a1 * s3;
    assert(g * a2 >= a1 * (a2 + s3 - s1)) by (nonlinear_arith)
        requires
            g * a2 == s1 * (a2 - uv) + a1 * (a2 + s3),
            uv < a1 + a2,
            s1 >= 0,
            a1 >= 0;
    assert(g >= 0) by (nonlinear_arith)
        requires
            g * a2 >= a1 * (a2 + s3 - s1),
            a1 >= 0,
            a2 + s3 - s1 >= 0,
            a2 > 0;
}

/// Membership test for a point in a vector of points.
fn contains_pt(v: &Vec<Vec2>, p: Vec2) -> (r: bool)
    ensures
        r == v@.contains(p),
{
    let mut i: usize = 0;
    while i < v.len()
        invariant
            i <= v@.len(),
            forall|j: int| 0 <= j < i ==> v@[j] != p,
        decreases v@.len() - i,
    {
        if v[i] == p {
            assert(v@[i as int] == p);
            return true;
        }
        i = i + 1;
    }
    false
}

/// Copy the input keeping the first occurrence of each distinct point.
fn dedup_pts(points: &Vec<Vec2>) -> (r: Vec<Vec2>)
    ensures
        forall|i: int| 0 <= i < r@.len() ==> points@.contains(#[trigger] r@[i]),
        forall|i: int| 0 <= i < points@.len() ==> r@.contains(#[trigger] points@[i]),
        forall|i: int, j: int| 0 <= i < j < r@.len() ==> r@[i] != r@[j],
{
    let mut r: Vec<Vec2> = Vec::new();
    let mut i: usize = 0;
    while i < points.len()
        invariant
            i <= points@.len(),
            forall|k: int| 0 <= k < r@.len() ==> points@.contains(#[trigger] r@[k]),
            forall|k: int| 0 <= k < i ==> r@.contains(#[trigger] points@[k]),
            forall|k: int, l: int| 0 <= k < l < r@.len() ==> r@[k] != r@[l],
        decreases points@.len() - i,
    {
        let p = points[i];
        assert(points@.contains(p));
        let ghost r0 = r@;
        let present = contains_pt(&r, p);
        if !present {
            r.push(p);
        }
        proof {
            assert forall|k: int| 0 <= k < i + 1 implies r@.contains(#[trigger] points@[k]) by {
                if k == i {
                    if present {
                        let j = choose|j: int| 0 <= j < r0.len() && r0[j] == p;
                        assert(r@[j] == p);
                    } else {
                        assert(r@[r0.len() as int] == p);
                    }
                } else {
                    let j = choose|j: int| 0 <= j < r0.len() && r0[j] == points@[k];
                    assert(r@[j] == points@[k]);
                }
            }
        }
        i = i + 1;
    }
    r
}

/// Index of the (y, then x) minimum of a non-empty vector.
fn pivot_idx(v: &Vec<Vec2>) -> (k: usize)
    requires
        v@.len() >= 1,
    ensures
        k < v@.len(),
        forall|i: int| 0 <= i < v@.len() ==> lex_le(v@[k as int], #[trigger] v@[i]),
{
    let mut best: usize = 0;
    let mut i: usize = 1;
    while i < v.len()
        invariant
            best < i,
            i <= v@.len(),
            forall|j: int| 0 <= j < i ==> lex_le(v@[best as int], #[trigger] v@[j]),
        decreases v@.len() - i,
    {
        if v[i].y < v[best].y || (v[i].y == v[best].y && v[i].x < v[best].x) {
            best = i;
        }
        i = i + 1;
    }
    best
}

/// `a` strictly precedes `b` about `p0`, executably.
fn angle_lt_exec(p0: Vec2, a: Vec2, b: Vec2) -> (r: bool)
    requires
        v2_wf(p0),
        v2_wf(a),
        v2_wf(b),
    ensures
        r == angle_lt(p0, a, b),
{
    let c = cross3_val(p0, a, b);
    if c > 0 {
        true
    } else if c == 0 {
        let da = dist2_val(p0, a);
        let db = dist2_val(p0, b);
        da < db
    } else {
        false
    }
}

/// Order the points by polar angle about `pivot`, nearer points first on a
/// shared ray (selection into a fresh vector; the result is a permutation,
/// pairwise non-descending in the angular order).
fn sort_about(pivot: Vec2, rest: Vec<Vec2>) -> (r: Vec<Vec2>)
    requires
        v2_wf(pivot),
        pts_wf(rest@),
        forall|i: int| 0 <= i < rest@.len() ==> above(pivot, #[trigger] rest@[i]),
    ensures
        r@.len() == rest@.len(),
        forall|i: int| 0 <= i < r@.len() ==> rest@.contains(#[trigger] r@[i]),
        forall|i: int| 0 <= i < rest@.len() ==> r@.contains(#[trigger] rest@[i]),
        forall|i: int, j: int| 0 <= i < j < r@.len() ==> !(#[trigger] angle_lt(pivot, r@[j], r@[i])),
        pts_wf(r@),
{
    let ghost orig = rest@;
    let mut src = rest;
    let mut out: Vec<Vec2> = Vec::new();
    while src.len() > 0
        invariant
            out@.len() + src@.len() == orig.len(),
            forall|i: int| 0 <= i < src@.len() ==> orig.contains(#[trigger] src@[i]),
            forall|i: int| 0 <= i < out@.len() ==> orig.contains(#[trigger] out@[i]),
            forall|i: int| 0 <= i < orig.len() ==> out@.contains(#[trigger] orig[i])
                || src@.contains(#[trigger] orig[i]),
            forall|i: int, j: int| 0 <= i < j < out@.len() ==> !(#[trigger] angle_lt(
                pivot,
                out@[j],
                out@[i],
            )),
            forall|i: int, j: int| 0 <= i < out@.len() && 0 <= j < src@.len() ==> !(
            #[trigger] angle_lt(pivot, src@[j], out@[i])),
            forall|i: int| 0 <= i < src@.len() ==> above(pivot, #[trigger] src@[i]),
            v2_wf(pivot),
            pts_wf(src@),
            pts_wf(out@),
        decreases src@.len(),
    {
        let mut k: usize = 0;
        let mut i: usize = 1;
        proof {
            lemma_angle_lt_irrefl(pivot, src@[0]);
        }
        while i < src.len()
            invariant
                k < i,
                i <= src@.len(),
                src@.len() >= 1,
                v2_wf(pivot),
                pts_wf(src@),
                forall|j: int| 0 <= j < src@.len() ==> above(pivot, #[trigger] src@[j]),
                forall|j: int| 0 <= j < i ==> !(#[trigger] angle_lt(
                    pivot,
                    src@[j],
                    src@[k as int],
                )),
            decreases src@.len() - i,
        {
            if angle_lt_exec(pivot, src[i], src[k]) {
                let ghost ok = k as int;
                k = i;
                proof {
                    lemma_angle_lt_irrefl(pivot, src@[k as int]);
                    assert forall|j: int| 0 <= j < i + 1 implies !(#[trigger] angle_lt(
                        pivot,
                        src@[j],
                        src@[k as int],
                    )) by {
                        if j < i && angle_lt(pivot, src@[j], src@[k as int]) {
                            lemma_angle_lt_trans(pivot, src@[j], src@[k as int], src@[ok]);
                        }
                    }
                }
            } else {
                proof {
                    assert(!angle_lt(pivot, src@[i as int], src@[k as int]));
                }
            }
            i = i + 1;
        }
        let ghost src0 = src@;
        let ghost out0 = out@;
        let ghost kk = k as int;
        let p = src.swap_remove(k);
        assert(orig.contains(p));
        out.push(p);
        proof {
            assert forall|i2: int, j2: int|
                0 <= i2 < out@.len() && 0 <= j2 < src@.len() implies !(#[trigger] angle_lt(
                pivot,
                src@[j2],
                out@[i2],
            )) by {
                assert(src@[j2] == src0.update(kk, src0.last()).drop_last()[j2]);
                if i2 < out0.len() {
                    assert(out@[i2] == out0[i2]);
                    if j2 == kk {
                        assert(src@[j2] == src0[src0.len() - 1]);
                    } else {
                        assert(src@[j2] == src0[j2]);
                    }
                } else {
                    assert(out@[i2] == p);
                    if j2 == kk {
                        assert(src@[j2] == src0[src0.len() - 1]);
                        assert(!angle_lt(pivot, src0[src0.len() - 1], src0[kk]));
                    } else {
                        assert(src@[j2] == src0[j2]);
                        assert(!angle_lt(pivot, src0[j2], src0[kk]));
                    }
                }
            }
            assert forall|i2: int|
                0 <= i2 < orig.len() implies out@.contains(#[trigger] orig[i2]) || src@.contains(
                #[trigger] orig[i2],
            ) by {
                if out0.contains(orig[i2]) {
                    let w = choose|w: int| 0 <= w < out0.len() && out0[w] == orig[i2];
                    assert(out@[w] == orig[i2]);
                } else {
                    let w = choose|w: int| 0 <= w < src0.len() && src0[w] == orig[i2];
                    if w == kk {
                        assert(out@[out0.len() as int] == orig[i2]);
                    } else if w == src0.len() - 1 {
                        if kk < src0.len() - 1 {
                            assert(src@[kk] == src0[src0.len() - 1]);
                        } else {
                            assert(out@[out0.len() as int] == orig[i2]);
                        }
                    } else {
                        assert(src@[w] == src0[w]);
                    }
                }
            }
            assert forall|j2: int| 0 <= j2 < src@.len() implies above(
                pivot,
                #[trigger] src@[j2],
            ) by {
                assert(src@[j2] == src0.update(kk, src0.last()).drop_last()[j2]);
                if j2 == kk {
                    assert(src@[j2] == src0[src0.len() - 1]);
                } else {
                    assert(src@[j2] == src0[j2]);
                }
            }
        }
    }
    out
}

/// No point strictly precedes itself in the angular order.
pub proof fn lemma_angle_lt_irrefl(o: Vec2, a: Vec2)
    ensures
        !angle_lt(o, a, a),
{
    assert(cross3(o, a, a) == 0) by (nonlinear_arith);
}

/// A point on the stack top's own ray, at least as far out, cannot make
/// a strict left turn out of the chain's last edge.
proof fn lemma_strict_advance(o: Vec2, up: Vec2, tp: Vec2, pp: Vec2)
    requires
        above(o, tp),
        above(o, pp),
        cross3(o, tp, pp) == 0,
        !angle_lt(o, pp, tp),
        cross3(o, up, tp) >= 0,
    ensures
        cross3(up, tp, pp) <= 0,
{
    let tx = tp.x - o.x;
    let ty = tp.y - o.y;
    let px = pp.x - o.x;
    let py = pp.y - o.y;
    let ux = up.x - o.x;
    let uy = up.y - o.y;
    assert(tx * py == ty * px) by (nonlinear_arith)
        requires
            cross3(o, tp, pp) == tx * py - ty * px && cross3(o, tp, pp) == 0;
    lemma_cross3_antisym(o, pp, tp);
    assert(dist2(o, pp) >= dist2(o, tp));
    let tdp = tx * px + ty * py;
    lemma_same_ray_dot_pos(tx, ty, px, py);
    lemma_parallel_dot_sq(tx, ty, px, py);
    assert(tx * tx + ty * ty > 0) by (nonlinear_arith)
        requires
            ty > 0 || (ty == 0 && tx > 0);
    assert(tdp >= tx * tx + ty * ty) by (nonlinear_arith)
        requires
            tdp * tdp == (tx * tx + ty * ty) * (px * px + py * py),
            px * px + py * py >= tx * tx + ty * ty,
            tdp > 0,
            tx * tx + ty * ty > 0;
    lemma_parallel_scale(tx, ty, ux, uy, px, py);
    assert((ux * py - uy * px) * (tx * tx + ty * ty) == (ux * ty - uy * tx) * tdp);
    assert(cross3(o, up, pp) * (tx * tx + ty * ty) >= cross3(o, up, tp) * (tx * tx + ty * ty))
        by (nonlinear_arith)
        requires
            cross3(o, up, pp) == ux * py - uy * px,
            cross3(o, up, tp) == ux * ty - uy * tx,
            (ux * py - uy * px) * (tx * tx + ty * ty) == (ux * ty - uy * tx) * tdp,
            cross3(o, up, tp) >= 0,
            tdp >= tx * tx + ty * ty,
            tx * tx + ty * ty > 0;
    assert(cross3(o, up, pp) >= cross3(o, up, tp)) by (nonlinear_arith)
        requires
            cross3(o, up, pp) * (tx * tx + ty * ty) >= cross3(o, up, tp) * (tx * tx + ty * ty),
            tx * tx + ty * ty > 0;
    lemma_cross3_apex(o, up, tp, pp);
}

/// Walking the whole chain down: a point that exits the chain's last
/// edge leftward, and is angularly at or past every chain vertex, is
/// left of every chain edge.
proof fn lemma_chain_all(o: Vec2, st: Seq<Vec2>, p: Vec2, t: int)
    requires
        2 <= st.len(),
        0 <= t <= st.len() - 2,
        st[0] == o,
        forall|a: int| 1 <= a && a + 1 < st.len() ==> #[trigger] cross3(o, st[a], st[a + 1]) > 0,
        forall|a: int| 0 <= a && a + 2 < st.len() ==> #[trigger] cross3(st[a], st[a + 1], st[a + 2])
            > 0,
        forall|a: int| 1 <= a < st.len() ==> #[trigger] cross3(o, st[a], p) >= 0,
        cross3(st[st.len() - 2], st[st.len() - 1], p) >= 0,
    ensures
        cross3(st[t], st[t + 1], p) >= 0,
    decreases st.len() - t,
{
    if t < st.len() - 2 {
        lemma_chain_all(o, st, p, t + 1);
        if t == 0 {
            assert(cross3(o, st[0], st[1]) == 0) by (nonlinear_arith)
                requires
                    st[0] == o && cross3(o, st[0], st[1]) == (st[0].x - o.x) * (st[1].y - o.y) - (
                    st[0].y - o.y) * (st[1].x - o.x);
        }
        lemma_chain_step(o, st[t], st[t + 1], st[t + 2], p);
    }
}

/// A cross-product triple is invariant under rotating its three points.
pub proof fn lemma_cross3_rotate(a: Vec2, b: Vec2, c: Vec2)
    ensures
        cross3(a, b, c) == cross3(c, a, b),
{
    assert((b.x - a.x) * (c.y - a.y) - (b.y - a.y) * (c.x - a.x) == (a.x - c.x) * (b.y - c.y) - (
    a.y - c.y) * (b.x - c.x)) by (nonlinear_arith);
}

/// The strict angular order by cross product is transitive on points
/// above the apex.
pub proof fn lemma_winding_strict_trans(o: Vec2, a: Vec2, b: Vec2, c: Vec2)
    requires
        above(o, a),
        above(o, b),
        above(o, c),
        cross3(o, a, b) > 0,
        cross3(o, b, c) > 0,
    ensures
        cross3(o, a, c) > 0,
{
    lemma_angle_lt_trans(o, a, b, c);
    if cross3(o, a, c) <= 0 {
        assert(cross3(o, a, c) == 0);
        let ax = a.x - o.x;
        let ay = a.y - o.y;
        let bx = b.x - o.x;
        let by = b.y - o.y;
        let cx = c.x - o.x;
        let cy = c.y - o.y;
        assert(ax * cy == ay * cx) by (nonlinear_arith)
            requires
                cross3(o, a, c) == ax * cy - ay * cx && cross3(o, a, c) == 0;
        lemma_same_ray_dot_pos(ax, ay, cx, cy);
        lemma_parallel_scale(ax, ay, bx, by, cx, cy);
        assert((bx * cy - by * cx) * (ax * ax + ay * ay) == (bx * ay - by * ax) * (ax * cx + ay
            * cy));
        assert(bx * ay - by * ax == -(ax * by - ay * bx)) by (nonlinear_arith);
        assert(ax * ax + ay * ay > 0) by (nonlinear_arith)
            requires
                ay > 0 || (ay == 0 && ax > 0);
        assert(false) by (nonlinear_arith)
            requires
                (bx * cy - by * cx) * (ax * ax + ay * ay) == (-(ax * by - ay * bx)) * (ax * cx
                    + ay * cy),
                ax * by - ay * bx > 0,
                ax * cx + ay * cy > 0,
                ax * ax + ay * ay > 0,
                bx * cy - by * cx > 0;
    }
}

/// Strict winding spans the whole chain: any earlier chain vertex turns
/// strictly counter-clockwise to any later one, not just to its
/// neighbour.
proof fn lemma_winding_span(o: Vec2, st: Seq<Vec2>, i: int, j: int)
    requires
        1 <= i < j < st.len(),
        forall|a: int| 1 <= a < st.len() ==> above(o, #[trigger] st[a]),
        forall|a: int| 1 <= a && a + 1 < st.len() ==> #[trigger] cross3(o, st[a], st[a + 1]) > 0,
    ensures
        cross3(o, st[i], st[j]) > 0,
    decreases j - i,
{
    if j == i + 1 {
        assert(cross3(o, st[i], st[i + 1]) > 0);
    } else {
        lemma_winding_span(o, st, i, j - 1);
        let a0 = j - 1;
        assert(cross3(o, st[a0], st[a0 + 1]) > 0);
        lemma_winding_strict_trans(o, st[i], st[j - 1], st[j]);
    }
}

/// The convex hull of a non-empty point set, by a Graham scan.
///
/// The contract pins down: every hull vertex is one of the input points,
/// the first vertex is the (y, then x) minimum of the input, every run of
/// three cyclically consecutive hull vertices turns strictly
/// counter-clockwise (so a proper hull carries no duplicate and no
/// collinear vertex, the closing chain included), the vertices after the
/// first wind counter-clockwise about it, and every input point lies on
/// or inside the polygon: weakly left of every edge, the closing edge
/// included. Degenerate inputs (all collinear, fewer than three distinct
/// points) yield the natural degenerate chain, its two ends distinct.
pub fn convex_hull(points: Vec<Vec2>) -> (r: Vec<Vec2>)
    requires
        points@.len() >= 1,
        pts_wf(points@),
    ensures
        r@.len() >= 1,
        forall|i: int| 0 <= i < r@.len() ==> points@.contains(#[trigger] r@[i]),
        forall|i: int| 0 <= i < points@.len() ==> lex_le(r@[0], #[trigger] points@[i]),
        forall|i: int| 0 <= i && i + 2 < r@.len() ==> #[trigger] cross3(r@[i], r@[i + 1], r@[i + 2]) > 0,
        forall|a: int, b: int| 1 <= a < b < r@.len() ==> #[trigger] cross3(r@[0], r@[a], r@[b]) >= 0,
        r@.len() == 2 ==> r@[0] != r@[1],
        forall|i: int| 0 <= i < r@.len() && r@.len() >= 3 ==> #[trigger] cross3(
            r@[i],
            r@[(i + 1) % (r@.len() as int)],
            r@[(i + 2) % (r@.len() as int)],
        ) > 0,
        forall|qi: int, e: int|
            0 <= qi < points@.len() && 0 <= e < r@.len() ==> #[trigger] cross3(
                r@[e],
                r@[(e + 1) % (r@.len() as int)],
                points@[qi],
            ) >= 0,
        pts_wf(r@),
{
    let mut uniq = dedup_pts(&points);
    proof {
        assert(uniq@.contains(points@[0]));
        assert(pts_wf(uniq@)) by {
            assert forall|i: int| 0 <= i < uniq@.len() implies v2_wf(#[trigger] uniq@[i]) by {
                let j = choose|j: int| 0 <= j < points@.len() && points@[j] == uniq@[i];
            }
        }
    }
    let k = pivot_idx(&uniq);
    let ghost uniq0 = uniq@;
    let p0 = uniq.remove(k);
    proof {
        assert forall|i: int| 0 <= i < points@.len() implies lex_le(p0, #[trigger] points@[i]) by {
            let j = choose|j: int| 0 <= j < uniq0.len() && uniq0[j] == points@[i];
            assert(lex_le(uniq0[k as int], uniq0[j]));
        }
        assert forall|i: int| 0 <= i < uniq@.len() implies points@.contains(#[trigger] uniq@[i]) by {
            assert(uniq@[i] == uniq0.remove(k as int)[i]);
            if i < k {
                assert(uniq0.remove(k as int)[i] == uniq0[i]);
            } else {
                assert(uniq0.remove(k as int)[i] == uniq0[i + 1]);
            }
        }
        assert(pts_wf(uniq@)) by {
            assert forall|i: int| 0 <= i < uniq@.len() implies v2_wf(#[trigger] uniq@[i]) by {
                let j = choose|j: int| 0 <= j < points@.len() && points@[j] == uniq@[i];
            }
        }
    }
    let ghost uniq1 = uniq@;
    let rest = sort_about(p0, uniq);
    proof {
        assert forall|i: int| 0 <= i < rest@.len() implies points@.contains(#[trigger] rest@[i]) by {
            let j = choose|j: int| 0 <= j < uniq1.len() && uniq1[j] == rest@[i];
        }
    }
    let mut stack: Vec<Vec2> = Vec::new();
    stack.push(p0);
    proof {
        assert forall|j: int| 0 <= j < rest@.len() implies above(p0, #[trigger] rest@[j]) by {
            let w = choose|w: int| 0 <= w < uniq1.len() && uniq1[w] == rest@[j];
        }
    }
    let mut idx: usize = 0;
    while idx < rest.len()
        invariant
            idx <= rest@.len(),
            stack@.len() >= 1,
            stack@[0] == p0,
            points@.contains(p0),
            v2_wf(p0),
            pts_wf(rest@),
            pts_wf(stack@),
            forall|i: int| 0 <= i < rest@.len() ==> points@.contains(#[trigger] rest@[i]),
            forall|i: int| 0 <= i < stack@.len() ==> points@.contains(#[trigger] stack@[i]),
            forall|j: int| 0 <= j < rest@.len() ==> above(p0, #[trigger] rest@[j]),
            forall|a: int| 1 <= a < stack@.len() ==> above(p0, #[trigger] stack@[a]),
            forall|t: int| 0 <= t && t + 2 < stack@.len()
                ==> #[trigger] cross3(stack@[t], stack@[t + 1], stack@[t + 2]) > 0,
            forall|i: int, j: int| 0 <= i < j < rest@.len() ==> !(#[trigger] angle_lt(
                p0,
                rest@[j],
                rest@[i],
            )),
            forall|a: int, j: int|
                1 <= a < stack@.len() && idx <= j < rest@.len() ==> !angle_lt(
                    p0,
                    #[trigger] rest@[j],
                    #[trigger] stack@[a],
                ),
            forall|a: int, b: int| 1 <= a < b < stack@.len() ==> #[trigger] cross3(
                p0,
                stack@[a],
                stack@[b],
            ) >= 0,
            forall|a: int| 1 <= a && a + 1 < stack@.len() ==> #[trigger] cross3(
                p0,
                stack@[a],
                stack@[a + 1],
            ) > 0,
            forall|j: int, t: int|
                0 <= j < idx && 0 <= t && t + 1 < stack@.len() ==> #[trigger] cross3(
                    stack@[t],
                    stack@[t + 1],
                    rest@[j],
                ) >= 0,
            forall|j: int| 0 <= j < idx ==> !(#[trigger] angle_lt(
                p0,
                stack@[stack@.len() - 1],
                rest@[j],
            )),
        decreases rest@.len() - idx,
    {
        let p = rest[idx];
        while stack.len() > 1 && cross3_val(stack[stack.len() - 2], stack[stack.len() - 1], p) <= 0
            invariant
                stack@.len() >= 1,
                stack@[0] == p0,
                v2_wf(p),
                v2_wf(p0),
                idx < rest@.len(),
                p == rest@[idx as int],
                pts_wf(stack@),
                pts_wf(rest@),
                forall|i: int| 0 <= i < stack@.len() ==> points@.contains(#[trigger] stack@[i]),
                forall|j: int| 0 <= j < rest@.len() ==> above(p0, #[trigger] rest@[j]),
                forall|a: int| 1 <= a < stack@.len() ==> above(p0, #[trigger] stack@[a]),
                forall|t: int| 0 <= t && t + 2 < stack@.len()
                    ==> #[trigger] cross3(stack@[t], stack@[t + 1], stack@[t + 2]) > 0,
                forall|a: int, j: int|
                    1 <= a < stack@.len() && idx <= j < rest@.len() ==> !angle_lt(
                        p0,
                        #[trigger] rest@[j],
                        #[trigger] stack@[a],
                    ),
                forall|a: int, b: int| 1 <= a < b < stack@.len() ==> #[trigger] cross3(
                    p0,
                    stack@[a],
                    stack@[b],
                ) >= 0,
                forall|a: int| 1 <= a && a + 1 < stack@.len() ==> #[trigger] cross3(
                    p0,
                    stack@[a],
                    stack@[a + 1],
                ) > 0,
                forall|j: int, t: int|
                    0 <= j < idx && 0 <= t && t + 1 < stack@.len() ==> #[trigger] cross3(
                        stack@[t],
                        stack@[t + 1],
                        rest@[j],
                    ) >= 0,
                forall|j: int| 0 <= j < idx ==> cross3(
                    stack@[stack@.len() - 1],
                    p,
                    #[trigger] rest@[j],
                ) >= 0 || !angle_lt(p0, stack@[stack@.len() - 1], rest@[j]),
            decreases stack@.len(),
        {
            let ghost st0 = stack@;
            stack.pop();
            proof {
                let lx = st0.len() - 1;
                let xx = st0[lx];
                let yy = st0[lx - 1];
                assert(stack@ =~= st0.drop_last());
                assert(stack@[stack@.len() - 1] == yy);
                assert(cross3(yy, xx, p) <= 0);
                assert forall|j: int| 0 <= j < idx implies cross3(
                    stack@[stack@.len() - 1],
                    p,
                    #[trigger] rest@[j],
                ) >= 0 || !angle_lt(p0, stack@[stack@.len() - 1], rest@[j]) by {
                    let q = rest@[j];
                    let t0 = lx - 1;
                    assert(cross3(st0[t0], st0[t0 + 1], rest@[j]) >= 0);
                    assert(st0[t0 + 1] == xx && st0[t0] == yy);
                    assert(cross3(yy, xx, q) >= 0);
                    if cross3(xx, p, q) >= 0 {
                        lemma_cross3_apex(yy, xx, p, q);
                        assert(cross3(yy, p, q) >= 0);
                    } else {
                        assert(!angle_lt(p0, xx, q));
                        if angle_lt(p0, yy, q) {
                            if lx == 1 {
                                assert(yy == p0);
                                assert(!angle_lt(p0, p, xx));
                                lemma_cross3_antisym(p0, p, xx);
                                assert(cross3(p0, xx, p) == 0);
                                let z0 = 0int;
                                assert(cross3(st0[z0], st0[z0 + 1], rest@[j]) >= 0);
                                assert(st0[z0] == p0 && st0[z0 + 1] == xx);
                                lemma_ray_transfer(p0, xx, p, q);
                                assert(cross3(yy, p, q) >= 0);
                            } else {
                                let a0 = lx - 1;
                                assert(cross3(p0, st0[a0], st0[a0 + 1]) > 0);
                                assert(cross3(p0, yy, xx) > 0);
                                lemma_cross3_antisym(p0, p, xx);
                                lemma_cross3_antisym(p0, p, yy);
                                lemma_pop_behind(p0, yy, xx, p, q);
                            }
                        }
                    }
                }
            }
        }
        let ghost st1 = stack@;
        stack.push(p);
        proof {
            let l1 = st1.len();
            let tt = st1[l1 - 1];
            if l1 > 1 {
                assert(cross3(st1[l1 - 2], tt, p) > 0);
            }
            assert forall|a: int, b: int| 1 <= a < b < stack@.len() implies #[trigger] cross3(
                p0,
                stack@[a],
                stack@[b],
            ) >= 0 by {
                if b == stack@.len() - 1 {
                    assert(stack@[b] == p);
                    assert(stack@[a] == st1[a]);
                    assert(!angle_lt(p0, rest@[idx as int], st1[a]));
                    lemma_cross3_antisym(p0, rest@[idx as int], st1[a]);
                } else {
                    assert(stack@[a] == st1[a] && stack@[b] == st1[b]);
                }
            }
            assert forall|a: int, j: int|
                1 <= a < stack@.len() && idx + 1 <= j < rest@.len() implies !angle_lt(
                p0,
                #[trigger] rest@[j],
                #[trigger] stack@[a],
            ) by {
                if a == stack@.len() - 1 {
                    assert(stack@[a] == rest@[idx as int]);
                    assert(!angle_lt(p0, rest@[j], rest@[idx as int]));
                } else {
                    assert(stack@[a] == st1[a]);
                }
            }
            assert forall|a: int| 1 <= a && a + 1 < stack@.len() implies #[trigger] cross3(
                p0,
                stack@[a],
                stack@[a + 1],
            ) > 0 by {
                if a + 1 == stack@.len() - 1 {
                    assert(stack@[a] == tt && stack@[a + 1] == p);
                    assert(!angle_lt(p0, p, tt));
                    lemma_cross3_antisym(p0, p, tt);
                    if cross3(p0, tt, p) == 0 {
                        if l1 == 2 {
                            assert(st1[l1 - 2] == p0);
                            assert(cross3(p0, tt, p) > 0);
                        } else {
                            lemma_strict_advance(p0, st1[l1 - 2], tt, p);
                        }
                        assert(false);
                    }
                } else {
                    assert(stack@[a] == st1[a] && stack@[a + 1] == st1[a + 1]);
                }
            }
            assert forall|a: int| 1 <= a < st1.len() implies cross3(p0, #[trigger] st1[a], p)
                >= 0 by {
                assert(!angle_lt(p0, p, st1[a]));
                lemma_cross3_antisym(p0, p, st1[a]);
            }
            assert forall|j: int, t: int|
                0 <= j < idx + 1 && 0 <= t && t + 1 < stack@.len() implies #[trigger] cross3(
                stack@[t],
                stack@[t + 1],
                rest@[j],
            ) >= 0 by {
                let q = rest@[j];
                if t + 1 < stack@.len() - 1 {
                    assert(stack@[t] == st1[t] && stack@[t + 1] == st1[t + 1]);
                    if j < idx {
                        assert(cross3(st1[t], st1[t + 1], q) >= 0);
                    } else {
                        assert(q == p);
                        if l1 >= 2 {
                            lemma_chain_all(p0, st1, p, t);
                        }
                    }
                } else {
                    assert(stack@[t] == tt && stack@[t + 1] == p);
                    if j == idx {
                        assert(q == p);
                        assert(cross3(tt, p, p) == 0) by (nonlinear_arith)
                            requires
                                cross3(tt, p, p) == (p.x - tt.x) * (p.y - tt.y) - (p.y - tt.y) * (
                                p.x - tt.x);
                    } else {
                        if cross3(tt, p, q) >= 0 {
                        } else {
                            assert(!angle_lt(p0, tt, q));
                            if l1 == 1 {
                                assert(tt == p0);
                                assert(cross3(p0, p0, q) == 0) by (nonlinear_arith)
                                    requires
                                        cross3(p0, p0, q) == (p0.x - p0.x) * (q.y - p0.y) - (p0.y
                                            - p0.y) * (q.x - p0.x);
                                assert(above(p0, q));
                                assert(dist2(p0, q) > 0) by (nonlinear_arith)
                                    requires
                                        dist2(p0, q) == (q.x - p0.x) * (q.x - p0.x) + (q.y - p0.y)
                                            * (q.y - p0.y),
                                        q.y - p0.y > 0 || (q.y - p0.y == 0 && q.x - p0.x > 0);
                                assert(dist2(p0, p0) == 0) by (nonlinear_arith)
                                    requires
                                        dist2(p0, p0) == (p0.x - p0.x) * (p0.x - p0.x) + (p0.y
                                            - p0.y) * (p0.y - p0.y);
                                assert(angle_lt(p0, p0, q));
                                assert(false);
                            } else {
                                let uu = st1[l1 - 2];
                                if l1 == 2 {
                                    assert(uu == p0);
                                    assert(cross3(p0, uu, tt) == 0) by (nonlinear_arith)
                                        requires
                                            uu == p0 && cross3(p0, uu, tt) == (uu.x - p0.x) * (
                                            tt.y - p0.y) - (uu.y - p0.y) * (tt.x - p0.x);
                                } else {
                                    let a1 = l1 - 2;
                                    assert(cross3(p0, st1[a1], st1[a1 + 1]) > 0);
                                    assert(cross3(p0, uu, tt) > 0);
                                }
                                assert(!angle_lt(p0, p, tt));
                                lemma_cross3_antisym(p0, p, tt);
                                lemma_push_left(p0, uu, tt, p, q);
                            }
                        }
                    }
                }
            }
            assert forall|j: int| 0 <= j < idx + 1 implies !(#[trigger] angle_lt(
                p0,
                stack@[stack@.len() - 1],
                rest@[j],
            )) by {
                assert(stack@[stack@.len() - 1] == p);
                if j < idx {
                    assert(!angle_lt(p0, rest@[idx as int], rest@[j]));
                } else {
                    lemma_angle_lt_irrefl(p0, p);
                }
            }
        }
        idx = idx + 1;
    }
    proof {
        let n = stack@.len() as int;
        if n == 2 {
            assert(above(p0, stack@[1]));
            assert(stack@[0] != stack@[1]);
        }
        if n >= 3 {
            assert forall|i: int| 0 <= i < n implies #[trigger] cross3(
                stack@[i],
                stack@[(i + 1) % n],
                stack@[(i + 2) % n],
            ) > 0 by {
                if i + 2 < n {
                    vstd::arithmetic::div_mod::lemma_small_mod((i + 1) as nat, n as nat);
                    vstd::arithmetic::div_mod::lemma_small_mod((i + 2) as nat, n as nat);
                    assert(cross3(stack@[i], stack@[i + 1], stack@[i + 2]) > 0);
                } else if i + 2 == n {
                    // The triple closing into the anchor: rotate it to a
                    // strict consecutive winding pair.
                    vstd::arithmetic::div_mod::lemma_small_mod((i + 1) as nat, n as nat);
                    vstd::arithmetic::div_mod::lemma_mod_self_0(n);
                    let a0 = n - 2;
                    assert(cross3(p0, stack@[a0], stack@[a0 + 1]) > 0);
                    lemma_cross3_rotate(stack@[n - 2], stack@[n - 1], p0);
                } else {
                    // The triple through the anchor: its turn equals the
                    // strict winding from the first to the last vertex.
                    assert(i == n - 1);
                    vstd::arithmetic::div_mod::lemma_mod_self_0(n);
                    vstd::arithmetic::div_mod::lemma_mod_multiples_vanish(1, 1, n);
                    vstd::arithmetic::div_mod::lemma_small_mod(1nat, n as nat);
                    assert((i + 2) % n == 1);
                    if n == 3 {
                        let a0 = 1int;
                        assert(cross3(p0, stack@[a0], stack@[a0 + 1]) > 0);
                    } else {
                        lemma_winding_span(p0, stack@, 1, n - 1);
                    }
                    lemma_cross3_rotate(stack@[n - 1], p0, stack@[1]);
                    lemma_cross3_rotate(p0, stack@[1], stack@[n - 1]);
                }
            }
        }
        assert forall|qi: int, e: int|
            0 <= qi < points@.len() && 0 <= e < n implies #[trigger] cross3(
            stack@[e],
            stack@[(e + 1) % n],
            points@[qi],
        ) >= 0 by {
            let q = points@[qi];
            let en = (e + 1) % n;
            if e + 1 < n {
                vstd::arithmetic::div_mod::lemma_small_mod((e + 1) as nat, n as nat);
                assert(en == e + 1);
            } else {
                vstd::arithmetic::div_mod::lemma_mod_self_0(n);
                assert(en == 0);
            }
            if q == p0 {
                if n == 1 || e == n - 1 || e == 0 {
                    // An edge out of or into the anchor itself.
                    let aa = stack@[e];
                    let bb = stack@[en];
                    if e == 0 {
                        assert(aa == p0);
                        assert(cross3(aa, bb, q) == 0) by (nonlinear_arith)
                            requires
                                aa == q && cross3(aa, bb, q) == (bb.x - aa.x) * (q.y - aa.y) - (
                                bb.y - aa.y) * (q.x - aa.x);
                    } else {
                        assert(en == 0 && bb == p0);
                        assert(cross3(aa, bb, q) == 0) by (nonlinear_arith)
                            requires
                                bb == q && cross3(aa, bb, q) == (bb.x - aa.x) * (q.y - aa.y) - (
                                bb.y - aa.y) * (q.x - aa.x);
                    }
                } else {
                    assert(cross3(p0, stack@[e], stack@[e + 1]) >= 0);
                    lemma_cross3_apex(p0, stack@[e], stack@[e + 1], q);
                    assert(cross3(p0, stack@[e], q) == 0) by (nonlinear_arith)
                        requires
                            q == p0 && cross3(p0, stack@[e], q) == (stack@[e].x - p0.x) * (q.y
                                - p0.y) - (stack@[e].y - p0.y) * (q.x - p0.x);
                    assert(cross3(p0, stack@[e + 1], q) == 0) by (nonlinear_arith)
                        requires
                            q == p0 && cross3(p0, stack@[e + 1], q) == (stack@[e + 1].x - p0.x) * (
                            q.y - p0.y) - (stack@[e + 1].y - p0.y) * (q.x - p0.x);
                }
            } else {
                // q is one of the sorted points: find it there.
                let ju = choose|ju: int| 0 <= ju < uniq0.len() && uniq0[ju] == q;
                assert(ju != k as int);
                let m = if ju < k as int { ju } else { ju - 1 };
                assert(uniq1[m] == q) by {
                    assert(uniq1 =~= uniq0.remove(k as int));
                }
                assert(rest@.contains(uniq1[m]));
                let jr = choose|jr: int| 0 <= jr < rest@.len() && rest@[jr] == q;
                if e + 1 < n {
                    assert(cross3(stack@[e], stack@[e + 1], rest@[jr]) >= 0);
                } else {
                    // The closing edge back to the anchor.
                    assert(en == 0);
                    assert(!angle_lt(p0, stack@[n - 1], rest@[jr]));
                    if n == 1 {
                        assert(stack@[e] == p0);
                        assert(cross3(p0, p0, q) == 0) by (nonlinear_arith)
                            requires
                                cross3(p0, p0, q) == (p0.x - p0.x) * (q.y - p0.y) - (p0.y - p0.y)
                                    * (q.x - p0.x);
                    } else {
                        lemma_cross3_apex(p0, stack@[n - 1], p0, q);
                        assert(cross3(p0, p0, q) == 0) by (nonlinear_arith)
                            requires
                                cross3(p0, p0, q) == (p0.x - p0.x) * (q.y - p0.y) - (p0.y - p0.y)
                                    * (q.x - p0.x);
                        assert(cross3(p0, stack@[n - 1], p0) == 0) by (nonlinear_arith)
                            requires
                                cross3(p0, stack@[n - 1], p0) == (stack@[n - 1].x - p0.x) * (p0.y
                                    - p0.y) - (stack@[n - 1].y - p0.y) * (p0.x - p0.x);
                        assert(cross3(p0, stack@[n - 1], q) <= 0);
                    }
                }
            }
        }
    }
    stack
}

/// Every projection of a point of `s` onto the axis of edge `a -> b` lies
/// strictly below every projection of a point of `t`.
pub open spec fn all_proj_lt(s: Seq<Vec2>, t: Seq<Vec2>, a: Vec2, b: Vec2) -> bool {
    forall|p: int, q: int|
        0 <= p < s.len() && 0 <= q < t.len()
            ==> #[trigger] proj(a, b, s[p]) < #[trigger] proj(a, b, t[q])
}

/// The axis of edge `a -> b` separates the two point sets.
pub open spec fn axis_separates(s: Seq<Vec2>, t: Seq<Vec2>, a: Vec2, b: Vec2) -> bool {
    all_proj_lt(s, t, a, b) || all_proj_lt(t, s, a, b)
}

/// Some edge of `s` yields a separating axis for `s` and `t`.
pub open spec fn separated(s: Seq<Vec2>, t: Seq<Vec2>) -> bool {
    exists|i: int|
        0 <= i < s.len() && #[trigger] axis_separates(s, t, s[i], s[(i + 1) % (s.len() as int)])
}

/// Minimum and maximum extent of a point set projected on the axis
/// perpendicular to the edge `a -> b`.
fn project(hull: &Vec<Vec2>, a: Vec2, b: Vec2) -> (mm: (i128, i128))
    requires
        hull@.len() >= 1,
        pts_wf(hull@),
        v2_wf(a),
        v2_wf(b),
    ensures
        forall|i: int| 0 <= i < hull@.len() ==> mm.0 <= #[trigger] proj(a, b, hull@[i]) <= mm.1,
        exists|i: int| 0 <= i < hull@.len() && mm.0 == #[trigger] proj(a, b, hull@[i]),
        exists|i: int| 0 <= i < hull@.len() && mm.1 == #[trigger] proj(a, b, hull@[i]),
{
    let first = proj_val(a, b, hull[0]);
    let mut min: i128 = first;
    let mut max: i128 = first;
    let mut i: usize = 1;
    while i < hull.len()
        invariant
            1 <= i <= hull@.len(),
            pts_wf(hull@),
            v2_wf(a),
            v2_wf(b),
            forall|j: int| 0 <= j < i ==> min as int <= #[trigger] proj(a, b, hull@[j]) <= max as int,
            exists|j: int| 0 <= j < i && min as int == #[trigger] proj(a, b, hull@[j]),
            exists|j: int| 0 <= j < i && max as int == #[trigger] proj(a, b, hull@[j]),
        decreases hull@.len() - i,
    {
        let p = proj_val(a, b, hull[i]);
        if p < min {
            min = p;
        }
        if p > max {
            max = p;
        }
        i = i + 1;
    }
    (min, max)
}

/// Separating-axis overlap test for two convex hulls given in
/// counter-clockwise order: true exactly when no edge axis of either hull
/// separates the two vertex sets (touching hulls count as overlapping).
pub fn sat_collision_detect(convex_hull1: &Vec<Vec2>, convex_hull2: &Vec<Vec2>) -> (r: bool)
    requires
        convex_hull1@.len() >= 1,
        convex_hull2@.len() >= 1,
        pts_wf(convex_hull1@),
        pts_wf(convex_hull2@),
    ensures
        r == (!separated(convex_hull1@, convex_hull2@) && !separated(
            convex_hull2@,
            convex_hull1@,
        )),
{
    let n1 = convex_hull1.len();
    let n2 = convex_hull2.len();
    let mut i: usize = 0;
    while i < n1
        invariant
            i <= n1,
            n1 == convex_hull1@.len(),
            n2 == convex_hull2@.len(),
            n1 >= 1,
            n2 >= 1,
            pts_wf(convex_hull1@),
            pts_wf(convex_hull2@),
            forall|j: int| 0 <= j < i
                ==> !axis_separates(
                    convex_hull1@,
                    convex_hull2@,
                    convex_hull1@[j],
                    #[trigger] convex_hull1@[(j + 1) % (n1 as int)],
                ),
        decreases n1 - i,
    {
        let a = convex_hull1[i];
        let b = convex_hull1[(i + 1) % n1];
        let (min1, max1) = project(convex_hull1, a, b);
        let (min2, max2) = project(convex_hull2, a, b);
        if max1 < min2 || max2 < min1 {
            proof {
                assert(axis_separates(convex_hull1@, convex_hull2@, a, b));
                assert(separated(convex_hull1@, convex_hull2@)) by {
                    assert(0 <= i < convex_hull1@.len() && axis_separates(
                        convex_hull1@,
                        convex_hull2@,
                        convex_hull1@[i as int],
                        convex_hull1@[(i + 1) % (n1 as int)],
                    ));
                }
            }
            return false;
        }
        proof {
            let pm = choose|j: int| 0 <= j < convex_hull1@.len()
                && max1 as int == proj(a, b, convex_hull1@[j]);
            let qm = choose|j: int| 0 <= j < convex_hull2@.len()
                && min2 as int == proj(a, b, convex_hull2@[j]);
            assert(!all_proj_lt(convex_hull1@, convex_hull2@, a, b)) by {
                assert(proj(a, b, convex_hull1@[pm]) >= proj(a, b, convex_hull2@[qm]));
            }
            let pm2 = choose|j: int| 0 <= j < convex_hull2@.len()
                && max2 as int == proj(a, b, convex_hull2@[j]);
            let qm2 = choose|j: int| 0 <= j < convex_hull1@.len()
                && min1 as int == proj(a, b, convex_hull1@[j]);
            assert(!all_proj_lt(convex_hull2@, convex_hull1@, a, b)) by {
                assert(proj(a, b, convex_hull2@[pm2]) >= proj(a, b, convex_hull1@[qm2]));
            }
        }
        i = i + 1;
    }
    let mut i2: usize = 0;
    while i2 < n2
        invariant
            i2 <= n2,
            n1 == convex_hull1@.len(),
            n2 == convex_hull2@.len(),
            n1 >= 1,
            n2 >= 1,
            pts_wf(convex_hull1@),
            pts_wf(convex_hull2@),
            !separated(convex_hull1@, convex_hull2@),
            forall|j: int| 0 <= j < i2
                ==> !axis_separates(
                    convex_hull2@,
                    convex_hull1@,
                    convex_hull2@[j],
                    #[trigger] convex_hull2@[(j + 1) % (n2 as int)],
                ),
        decreases n2 - i2,
    {
        let a = convex_hull2[i2];
        let b = convex_hull2[(i2 + 1) % n2];
        let (min1, max1) = project(convex_hull1, a, b);
        let (min2, max2) = project(convex_hull2, a, b);
        if max1 < min2 || max2 < min1 {
            proof {
                assert(axis_separates(convex_hull2@, convex_hull1@, a, b));
                assert(separated(convex_hull2@, convex_hull1@)) by {
                    assert(0 <= i2 < convex_hull2@.len() && axis_separates(
                        convex_hull2@,
                        convex_hull1@,
                        convex_hull2@[i2 as int],
                        convex_hull2@[(i2 + 1) % (n2 as int)],
                    ));
                }
            }
            return false;
        }
        proof {
            let pm = choose|j: int| 0 <= j < convex_hull1@.len()
                && max1 as int == proj(a, b, convex_hull1@[j]);
            let qm = choose|j: int| 0 <= j < convex_hull2@.len()
                && min2 as int == proj(a, b, convex_hull2@[j]);
            assert(!all_proj_lt(convex_hull1@, convex_hull2@, a, b)) by {
                assert(proj(a, b, convex_hull1@[pm]) >= proj(a, b, convex_hull2@[qm]));
            }
            let pm2 = choose|j: int| 0 <= j < convex_hull2@.len()
                && max2 as int == proj(a, b, convex_hull2@[j]);
            let qm2 = choose|j: int| 0 <= j < convex_hull1@.len()
                && min1 as int == proj(a, b, convex_hull1@[j]);
            assert(!all_proj_lt(convex_hull2@, convex_hull1@, a, b)) by {
                assert(proj(a, b, convex_hull2@[pm2]) >= proj(a, b, convex_hull1@[qm2]));
            }
        }
        i2 = i2 + 1;
    }
    true
}

} // verus!
