//! Engine-wide laws, stated and proved against the public contracts: the
//! time-of-impact solver hits a directly approached edge at the exact
//! geometric time and never reports a crossing for parallel motion, and
//! the equal-mass head-on impulse exactly swaps the two velocities.

use vstd::prelude::*;
use crate::fixed::{SCALE, FX_MAX, tdiv, clip, s_add, s_sub, s_mul, s_div, lemma_tdiv_multiple,
    lemma_tdiv_rational_eq};
use crate::geometry::{Vec2, s_dot};
use crate::object::{Object, obj_wf, obj_advanced};
use crate::simulator::{pair_time, pair_hit, hc_impulse, hc_rel_v, hc_resolved, hc_inv_den,
    cc_hit, cc_cur, cc_rel_v};
use crate::traversed::{world_pt, future_pos};

verus! {

/// A bound comfortably inside the representable band: quantities below it
/// pass through the solver without any saturation.
pub const LAW_BOUND: i64 = 0x100_0000_0000;

/// A point moving straight along the x axis at unit speed toward an edge
/// it meets head-on crosses it exactly `d` after the reference time: the
/// solver reports time `cur + d` for an approach from distance `d`. The
/// edge here is the 45-degree segment through `(px + d, py)`, so every
/// division in the solver is exact.
pub proof fn lemma_toi_direct_hit(px: i64, py: i64, d: i64, w: i64, cur: i64, te: i64)
    requires
        0 < d <= LAW_BOUND,
        0 < w <= LAW_BOUND,
        -LAW_BOUND <= px <= LAW_BOUND,
        -LAW_BOUND <= py <= LAW_BOUND,
        -LAW_BOUND <= cur <= LAW_BOUND,
        -LAW_BOUND <= te <= LAW_BOUND,
        cur + d <= te,
    ensures
        pair_hit(
            Vec2 { x: px, y: py },
            Vec2 { x: SCALE, y: 0 },
            Vec2 { x: (px + d - w) as i64, y: (py - w) as i64 },
            Vec2 { x: (px + d + w) as i64, y: (py + w) as i64 },
            cur as int,
            te as int,
        ) == Some(cur + d),
{
    let p = Vec2 { x: px, y: py };
    let v = Vec2 { x: SCALE, y: 0 };
    let a = Vec2 { x: (px + d - w) as i64, y: (py - w) as i64 };
    let b = Vec2 { x: (px + d + w) as i64, y: (py + w) as i64 };
    assert(s_sub(b.y as int, a.y as int) == 2 * w);
    assert(s_sub(b.x as int, a.x as int) == 2 * w);
    lemma_tdiv_multiple(SCALE as int, 2 * w);
    assert((2 * w) * SCALE == SCALE * (2 * w)) by (nonlinear_arith);
    let slope_1 = s_div(2 * w, 2 * w);
    assert(slope_1 == SCALE as int);
    lemma_tdiv_multiple(a.x as int, SCALE as int);
    assert(s_mul(a.x as int, SCALE as int) == a.x as int);
    let y_1 = s_sub(a.y as int, a.x as int);
    assert(y_1 == py - px - d);
    assert(tdiv(0, SCALE as int) == 0);
    let slope_2 = s_div(0, SCALE as int);
    assert(slope_2 == 0);
    assert(s_mul(p.x as int, 0) == 0) by {
        assert(p.x as int * 0 == 0) by (nonlinear_arith);
    }
    let y_2 = p.y as int;
    assert(s_sub(p.y as int, s_mul(p.x as int, 0)) == y_2);
    let ds = s_sub(slope_1, slope_2);
    assert(ds == SCALE as int);
    assert(s_sub(y_2, y_1) == px + d);
    lemma_tdiv_multiple(px + d, SCALE as int);
    assert((px + d) * SCALE == SCALE * (px + d)) by (nonlinear_arith);
    let intercept = s_div(px + d, SCALE as int);
    assert(intercept == px + d);
    assert(a.x as int <= intercept <= b.x as int);
    assert(s_sub(intercept, p.x as int) == d);
    lemma_tdiv_multiple(d as int, SCALE as int);
    assert((d as int) * SCALE == SCALE * (d as int)) by (nonlinear_arith);
    assert(s_div(d as int, SCALE as int) == d);
    assert(s_add(d as int, cur as int) == cur + d);
    assert(pair_time(p, v, a, b, cur as int) == Some(cur + d));
}

/// A point moving parallel to an edge never yields a crossing: when the
/// exact cross product of the velocity and the edge direction is zero
/// (and neither is vertical, which the solver filters anyway), the two
/// rounded slopes coincide and the solver reports nothing.
pub proof fn lemma_toi_parallel(p: Vec2, v: Vec2, a: Vec2, b: Vec2, cur: int, te: int)
    requires
        v.x != 0,
        a.x != b.x,
        -(FX_MAX as int) <= b.x - a.x <= FX_MAX as int,
        -(FX_MAX as int) <= b.y - a.y <= FX_MAX as int,
        (b.y - a.y) * (v.x as int) == (b.x - a.x) * (v.y as int),
    ensures
        pair_hit(p, v, a, b, cur, te) is None,
{
    let dy = s_sub(b.y as int, a.y as int);
    let dx = s_sub(b.x as int, a.x as int);
    assert(dy == b.y - a.y && dx == b.x - a.x);
    assert((dy * SCALE) * (v.x as int) == ((v.y as int) * SCALE) * dx) by (nonlinear_arith)
        requires
            dy * (v.x as int) == dx * (v.y as int);
    lemma_tdiv_rational_eq(dy * SCALE, dx, (v.y as int) * SCALE, v.x as int);
    assert(s_div(dy, dx) == s_div(v.y as int, v.x as int));
    assert(s_sub(s_div(dy, dx), s_div(v.y as int, v.x as int)) == clip(0));
    assert(pair_time(p, v, a, b, cur) is None);
}

/// The parallel-motion law lifted to a body pair: when the sharp body's
/// relative velocity is exactly parallel to an edge of the other body
/// (neither vertical, the edge span inside the representable band), no
/// vertex of the sharp body ever crosses that edge. Together with the
/// solver's exact contract, a pair all of whose edges are parallel to
/// the relative motion yields no collision at all.
pub proof fn lemma_cc_hit_parallel(sharp: Object, other: Object, te: int, vi: int, ej: int)
    requires
        0 <= vi < sharp.shape@.len(),
        0 <= ej < other.shape@.len(),
        ({
            let cur = cc_cur(sharp, other);
            let op = future_pos(other, cur);
            let a = world_pt(other.shape@[ej], other.rotation, op);
            let b = world_pt(
                other.shape@[(ej + 1) % (other.shape@.len() as int)],
                other.rotation,
                op,
            );
            let v = cc_rel_v(sharp, other);
            &&& v.x != 0
            &&& a.x != b.x
            &&& -(FX_MAX as int) <= b.x - a.x <= FX_MAX as int
            &&& -(FX_MAX as int) <= b.y - a.y <= FX_MAX as int
            &&& (b.y - a.y) * (v.x as int) == (b.x - a.x) * (v.y as int)
        }),
    ensures
        cc_hit(sharp, other, te, vi, ej) is None,
{
    let cur = cc_cur(sharp, other);
    let op = future_pos(other, cur);
    let p = world_pt(sharp.shape@[vi], sharp.rotation, future_pos(sharp, cur));
    let a = world_pt(other.shape@[ej], other.rotation, op);
    let b = world_pt(other.shape@[(ej + 1) % (other.shape@.len() as int)], other.rotation, op);
    lemma_toi_parallel(p, cc_rel_v(sharp, other), a, b, cur, te);
}

/// Two bodies of equal unit mass, coasting (no acceleration) head-on
/// along an axis-aligned contact normal with exactly opposite velocities,
/// come out of impulse resolution with their velocities exactly swapped:
/// each body's velocity is reversed, momentum and kinetic energy are
/// preserved exactly.
pub proof fn lemma_head_on_reversal(o1: Object, o2: Object, t: int, u: Vec2, vx: i64)
    requires
        obj_wf(o1),
        obj_wf(o2),
        o1.mass == SCALE,
        o2.mass == SCALE,
        o1.acceleration == (Vec2 { x: 0, y: 0 }),
        o2.acceleration == (Vec2 { x: 0, y: 0 }),
        -LAW_BOUND <= vx <= LAW_BOUND,
        o1.velocity == (Vec2 { x: vx, y: 0 }),
        o2.velocity == (Vec2 { x: (-vx) as i64, y: 0 }),
        u.y == 0,
        u.x == SCALE || u.x == -SCALE,
    ensures
        hc_resolved(o1, t, u, hc_impulse(o1, o2, t, u), true).velocity == o2.velocity,
        hc_resolved(o2, t, u, hc_impulse(o1, o2, t, u), false).velocity == o1.velocity,
{
    assert(s_mul(0, s_sub(t, o1.cur_time as int)) == 0) by {
        assert(0 * s_sub(t, o1.cur_time as int) == 0) by (nonlinear_arith);
        assert(tdiv(0, SCALE as int) == 0);
    }
    assert(s_mul(0, s_sub(t, o2.cur_time as int)) == 0) by {
        assert(0 * s_sub(t, o2.cur_time as int) == 0) by (nonlinear_arith);
        assert(tdiv(0, SCALE as int) == 0);
    }
    assert(obj_advanced(o1, t).velocity == o1.velocity);
    assert(obj_advanced(o2, t).velocity == o2.velocity);
    let rel = hc_rel_v(o1, o2, t);
    assert(rel.x == 2 * vx && rel.y == 0);
    lemma_tdiv_multiple(2 * vx, SCALE as int);
    assert((2 * vx) * (SCALE as int) == (SCALE as int) * (2 * vx)) by (nonlinear_arith);
    assert(s_mul(0, 0) == 0) by {
        assert(tdiv(0, SCALE as int) == 0);
    }
    lemma_tdiv_multiple(SCALE as int, SCALE as int);
    assert(s_div(SCALE as int, SCALE as int) == SCALE as int);
    assert(hc_inv_den(o1, o2) == 2 * SCALE);
    let imp = hc_impulse(o1, o2, t, u);
    if u.x == SCALE {
        assert(s_mul(rel.x as int, SCALE as int) == 2 * vx);
        assert(s_dot(rel, u) == 2 * vx);
        assert((-2 * (SCALE as int)) * (2 * vx) == (-4 * vx) * (SCALE as int)) by (nonlinear_arith);
        lemma_tdiv_rational_eq(
            (-2 * (SCALE as int)) * (2 * vx),
            SCALE as int,
            -4 * vx,
            1,
        );
        assert(tdiv(-4 * vx, 1) == -4 * vx) by {
            lemma_tdiv_multiple(-4 * vx, 1);
            assert((-4 * vx) * 1 == -4 * vx) by (nonlinear_arith);
        }
        assert(s_mul(-2 * (SCALE as int), 2 * vx) == -4 * vx);
        assert((-4 * vx) * (SCALE as int) == (-2 * vx) * (2 * (SCALE as int))) by (nonlinear_arith);
        lemma_tdiv_multiple(-2 * vx, 2 * (SCALE as int));
        assert((-2 * vx) * (2 * (SCALE as int)) == (2 * (SCALE as int)) * (-2 * vx))
            by (nonlinear_arith);
        lemma_tdiv_rational_eq(
            (-4 * vx) * (SCALE as int),
            2 * (SCALE as int),
            (-2 * vx) * (2 * (SCALE as int)),
            2 * (SCALE as int),
        );
        assert(imp == -2 * vx);
        lemma_tdiv_multiple(-2 * vx, SCALE as int);
        assert((-2 * vx) * (SCALE as int) == (SCALE as int) * (-2 * vx)) by (nonlinear_arith);
        assert(s_mul(imp, u.x as int) == -2 * vx);
        assert(s_div(-2 * vx, SCALE as int) == -2 * vx);
    } else {
        assert((2 * vx) * ((-(SCALE as int))) == (-2 * vx) * (SCALE as int)) by (nonlinear_arith);
        lemma_tdiv_rational_eq(
            (2 * vx) * (-(SCALE as int)),
            SCALE as int,
            (-2 * vx) * (SCALE as int),
            SCALE as int,
        );
        lemma_tdiv_multiple(-2 * vx, SCALE as int);
        assert((-2 * vx) * (SCALE as int) == (SCALE as int) * (-2 * vx)) by (nonlinear_arith);
        assert(s_mul(rel.x as int, u.x as int) == -2 * vx);
        assert(s_dot(rel, u) == -2 * vx);
        assert((-2 * (SCALE as int)) * (-2 * vx) == (4 * vx) * (SCALE as int)) by (nonlinear_arith);
        lemma_tdiv_rational_eq(
            (-2 * (SCALE as int)) * (-2 * vx),
            SCALE as int,
            (4 * vx) * (SCALE as int),
            SCALE as int,
        );
        lemma_tdiv_multiple(4 * vx, SCALE as int);
        assert((4 * vx) * (SCALE as int) == (SCALE as int) * (4 * vx)) by (nonlinear_arith);
        assert(s_mul(-2 * (SCALE as int), -2 * vx) == 4 * vx);
        assert((4 * vx) * (SCALE as int) == (2 * vx) * (2 * (SCALE as int))) by (nonlinear_arith);
        lemma_tdiv_multiple(2 * vx, 2 * (SCALE as int));
        assert((2 * vx) * (2 * (SCALE as int)) == (2 * (SCALE as int)) * (2 * vx))
            by (nonlinear_arith);
        lemma_tdiv_rational_eq(
            (4 * vx) * (SCALE as int),
            2 * (SCALE as int),
            (2 * vx) * (2 * (SCALE as int)),
            2 * (SCALE as int),
        );
        assert(imp == 2 * vx);
        assert((2 * vx) * (-(SCALE as int)) == (-2 * vx) * (SCALE as int)) by (nonlinear_arith);
        lemma_tdiv_rational_eq(
            (2 * vx) * (-(SCALE as int)),
            SCALE as int,
            (-2 * vx) * (SCALE as int),
            SCALE as int,
        );
        assert(s_mul(imp, u.x as int) == -2 * vx);
        assert(s_div(-2 * vx, SCALE as int) == -2 * vx);
    }
    let adv1 = obj_advanced(o1, t);
    let adv2 = obj_advanced(o2, t);
    assert(s_mul(0, s_sub(t, o1.cur_time as int)) == 0) by {
        assert(0 * s_sub(t, o1.cur_time as int) == 0) by (nonlinear_arith);
        assert(tdiv(0, SCALE as int) == 0);
    }
    assert(s_mul(0, s_sub(t, o2.cur_time as int)) == 0) by {
        assert(0 * s_sub(t, o2.cur_time as int) == 0) by (nonlinear_arith);
        assert(tdiv(0, SCALE as int) == 0);
    }
    assert(adv1.velocity == o1.velocity);
    assert(adv2.velocity == o2.velocity);
    assert(s_mul(imp, 0) == 0) by {
        assert(imp * 0 == 0) by (nonlinear_arith);
        assert(tdiv(0, SCALE as int) == 0);
    }
    assert(s_div(0, SCALE as int) == 0);
    assert(s_add(vx as int, -2 * vx) == -vx);
    assert(s_sub(-vx as int, -2 * vx) == vx);
}

/// With equal masses the two bodies' impulse kicks are exactly opposite,
/// so one resolved collision preserves the pair's summed velocity (and
/// with it the momentum) on each axis exactly, whenever the kicked
/// velocities stay inside the representable band.
pub proof fn lemma_equal_mass_momentum(o1: Object, o2: Object, t: int, u: Vec2, imp: int)
    requires
        o1.mass == o2.mass,
        ({
            let a1 = obj_advanced(o1, t);
            let a2 = obj_advanced(o2, t);
            let dvx = s_div(s_mul(imp, u.x as int), o1.mass as int);
            let dvy = s_div(s_mul(imp, u.y as int), o1.mass as int);
            &&& -(FX_MAX as int) <= a1.velocity.x + dvx <= FX_MAX as int
            &&& -(FX_MAX as int) <= a1.velocity.y + dvy <= FX_MAX as int
            &&& -(FX_MAX as int) <= a2.velocity.x - dvx <= FX_MAX as int
            &&& -(FX_MAX as int) <= a2.velocity.y - dvy <= FX_MAX as int
        }),
    ensures
        hc_resolved(o1, t, u, imp, true).velocity.x + hc_resolved(o2, t, u, imp, false).velocity.x
            == obj_advanced(o1, t).velocity.x + obj_advanced(o2, t).velocity.x,
        hc_resolved(o1, t, u, imp, true).velocity.y + hc_resolved(o2, t, u, imp, false).velocity.y
            == obj_advanced(o1, t).velocity.y + obj_advanced(o2, t).velocity.y,
{
}

} // verus!
