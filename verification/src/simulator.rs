//! The collision engine proper: the narrow-phase time-of-impact solver,
//! the impulse response, and the event-ordered per-frame resolution loop
//! with staleness invalidation.

use vstd::prelude::*;
use crate::fixed::{SCALE, clip, fx_wf, s_add, s_sub, s_mul, s_div, sqrt_floor, fx_add,
    fx_sub, fx_mul, fx_div, isqrt};
use crate::geometry::{Vec2, Rot, v2_wf, rot_wf, pts_wf, s_dot, s_rot_x, s_rot_y};
use crate::object::{Object, obj_wf, objs_wf, obj_advanced};
use crate::camera::{Camera, cam_wf};
use crate::traversed::{world_pt, future_pos, swept_inputs};
use crate::broad::{BroadPhase, cand, bp_fresh, entry_bounds_ok, lemma_extent_unique,
    lemma_query_no_false_negative};

verus! {

/// A candidate collision: at `time`, vertex `point_1` of body `object_1`
/// crosses edge `line_2` of body `object_2`. The two stamps freeze the
/// bodies' update counters at query time; the event is actionable only
/// while both still match.
#[derive(Clone, Copy, PartialEq, Eq, Structural, Debug)]
pub struct CollisionInfo {
    pub time: i64,
    pub object_1: usize,
    pub object_1_col_stamp: usize,
    pub point_1: usize,
    pub object_2: usize,
    pub object_2_col_stamp: usize,
    pub line_2: usize,
}

/// Total order on events: by time, ties broken field by field, so equal
/// times are processed in one fixed deterministic order.
pub open spec fn ci_lt(a: CollisionInfo, b: CollisionInfo) -> bool {
    if a.time != b.time {
        a.time < b.time
    } else if a.object_1 != b.object_1 {
        a.object_1 < b.object_1
    } else if a.object_1_col_stamp != b.object_1_col_stamp {
        a.object_1_col_stamp < b.object_1_col_stamp
    } else if a.point_1 != b.point_1 {
        a.point_1 < b.point_1
    } else if a.object_2 != b.object_2 {
        a.object_2 < b.object_2
    } else if a.object_2_col_stamp != b.object_2_col_stamp {
        a.object_2_col_stamp < b.object_2_col_stamp
    } else {
        a.line_2 < b.line_2
    }
}

/// Executable strict comparison matching `ci_lt`.
pub fn ci_lt_exec(a: &CollisionInfo, b: &CollisionInfo) -> (r: bool)
    ensures
        r == ci_lt(*a, *b),
{
    if a.time != b.time {
        a.time < b.time
    } else if a.object_1 != b.object_1 {
        a.object_1 < b.object_1
    } else if a.object_1_col_stamp != b.object_1_col_stamp {
        a.object_1_col_stamp < b.object_1_col_stamp
    } else if a.point_1 != b.point_1 {
        a.point_1 < b.point_1
    } else if a.object_2 != b.object_2 {
        a.object_2 < b.object_2
    } else if a.object_2_col_stamp != b.object_2_col_stamp {
        a.object_2_col_stamp < b.object_2_col_stamp
    } else {
        a.line_2 < b.line_2
    }
}

/// When the ray `p + t * v` crosses the infinite line through the edge
/// `a -> b`, solved slope-intercept in fixed point: the crossing time, or
/// nothing when an involved slope is vertical, the slopes are parallel,
/// or the crossing lies outside the edge's segment. These degeneracies
/// are expected outcomes of the search, filtered as "no collision".
pub open spec fn pair_time(p: Vec2, v: Vec2, a: Vec2, b: Vec2, cur: int) -> Option<int> {
    if a.x == b.x || v.x == 0 {
        None
    } else {
        let slope_1 = s_div(s_sub(b.y as int, a.y as int), s_sub(b.x as int, a.x as int));
        let y_1 = s_sub(a.y as int, s_mul(a.x as int, slope_1));
        let slope_2 = s_div(v.y as int, v.x as int);
        let y_2 = s_sub(p.y as int, s_mul(p.x as int, slope_2));
        let ds = s_sub(slope_1, slope_2);
        if ds == 0 {
            None
        } else {
            let intercept = s_div(s_sub(y_2, y_1), ds);
            let seg_lo = if a.x < b.x { a.x as int } else { b.x as int };
            let seg_hi = if a.x < b.x { b.x as int } else { a.x as int };
            if seg_lo <= intercept && intercept <= seg_hi {
                Some(s_add(s_div(s_sub(intercept, p.x as int), v.x as int), cur))
            } else {
                None
            }
        }
    }
}

/// `pair_time` restricted to the strict future window `(cur, te]`.
pub open spec fn pair_hit(p: Vec2, v: Vec2, a: Vec2, b: Vec2, cur: int, te: int) -> Option<int> {
    match pair_time(p, v, a, b, cur) {
        Some(t) => if cur < t && t <= te {
            Some(t)
        } else {
            None
        },
        None => None,
    }
}

/// Solve one vertex-against-edge crossing: the vertex at `p` moving with
/// velocity `v` against the stationary segment `a -> b`, inside the time
/// window `(cur_time, time_elapsed]`.
pub fn check_pair(p: Vec2, v: Vec2, a: Vec2, b: Vec2, cur_time: i64, time_elapsed: i64) -> (r:
    Option<i64>)
    requires
        v2_wf(p),
        v2_wf(v),
        v2_wf(a),
        v2_wf(b),
        fx_wf(cur_time),
        fx_wf(time_elapsed),
    ensures
        ({
            let h = pair_hit(p, v, a, b, cur_time as int, time_elapsed as int);
            match r {
                Some(t) => h == Some(t as int) && fx_wf(t),
                None => h is None,
            }
        }),
{
    if a.x == b.x || v.x == 0 {
        return None;
    }
    let dx = fx_sub(b.x, a.x);
    let slope_1 = fx_div(fx_sub(b.y, a.y), dx);
    let y_1 = fx_sub(a.y, fx_mul(a.x, slope_1));
    let slope_2 = fx_div(v.y, v.x);
    let y_2 = fx_sub(p.y, fx_mul(p.x, slope_2));
    let ds = fx_sub(slope_1, slope_2);
    if ds == 0 {
        return None;
    }
    let intercept = fx_div(fx_sub(y_2, y_1), ds);
    let seg_lo = if a.x < b.x { a.x } else { b.x };
    let seg_hi = if a.x < b.x { b.x } else { a.x };
    if seg_lo <= intercept && intercept <= seg_hi {
        let time = fx_add(fx_div(fx_sub(intercept, p.x), v.x), cur_time);
        if cur_time < time && time <= time_elapsed {
            Some(time)
        } else {
            None
        }
    } else {
        None
    }
}

/// How far resolved bodies are nudged apart along the contact normal, to
/// keep floating residue from re-penetrating immediately: 0.005 units.
pub const BIAS: i64 = 5_000;

/// A local shape point under the body's rotation alone (no translation).
pub open spec fn rot_pt(p: Vec2, rot: Rot) -> Vec2 {
    Vec2 { x: s_rot_x(p, rot) as i64, y: s_rot_y(p, rot) as i64 }
}

/// The struck edge's raw (unnormalized) normal: the perpendicular of the
/// edge direction `a - b`, both endpoints rotated into world orientation.
pub open spec fn hc_normal(o2: Object, line: int) -> Vec2 {
    let a = rot_pt(o2.shape@[line], o2.rotation);
    let b = rot_pt(o2.shape@[(line + 1) % (o2.shape@.len() as int)], o2.rotation);
    let dx = s_sub(a.x as int, b.x as int);
    let dy = s_sub(a.y as int, b.y as int);
    Vec2 { x: clip(-dy) as i64, y: dx as i64 }
}

/// The raw normal's squared length, exact.
pub open spec fn hc_len2(n: Vec2) -> int {
    n.x * n.x + n.y * n.y
}

/// The raw normal's length, rounded down.
pub open spec fn hc_len(o2: Object, line: int) -> int {
    sqrt_floor(hc_len2(hc_normal(o2, line)))
}

/// The unit contact normal in fixed point (defined when the length is
/// non-zero).
pub open spec fn hc_unit(o2: Object, line: int) -> Vec2 {
    let n = hc_normal(o2, line);
    let l = hc_len(o2, line);
    Vec2 { x: s_div(n.x as int, l) as i64, y: s_div(n.y as int, l) as i64 }
}

/// The impulse denominator `1/m1 + 1/m2` in fixed point.
pub open spec fn hc_inv_den(o1: Object, o2: Object) -> int {
    s_add(s_div(SCALE as int, o1.mass as int), s_div(SCALE as int, o2.mass as int))
}

/// The pair's relative velocity once both bodies have been advanced to
/// the event time `t` (the advance happens before the impulse is taken).
pub open spec fn hc_rel_v(o1: Object, o2: Object, t: int) -> Vec2 {
    Vec2 {
        x: s_sub(
            obj_advanced(o1, t).velocity.x as int,
            obj_advanced(o2, t).velocity.x as int,
        ) as i64,
        y: s_sub(
            obj_advanced(o1, t).velocity.y as int,
            obj_advanced(o2, t).velocity.y as int,
        ) as i64,
    }
}

/// The elastic impulse magnitude `-2 (v_rel . n) / (1/m1 + 1/m2)`, with
/// the relative velocity read at the event time.
pub open spec fn hc_impulse(o1: Object, o2: Object, t: int, u: Vec2) -> int {
    s_div(s_mul(-2 * (SCALE as int), s_dot(hc_rel_v(o1, o2, t), u)), hc_inv_den(o1, o2))
}

/// Both embedded stamps still match the live bodies' counters.
pub open spec fn hc_stamps_match(ci: CollisionInfo, objects: Seq<Object>) -> bool {
    &&& ci.object_1_col_stamp == objects[ci.object_1 as int].updated
    &&& ci.object_2_col_stamp == objects[ci.object_2 as int].updated
}

/// The event is actionable: fresh stamps and no geometric degeneracy (a
/// zero-length edge normal or an unrepresentably small inverse mass sum).
pub open spec fn hc_applies(ci: CollisionInfo, objects: Seq<Object>) -> bool {
    &&& hc_stamps_match(ci, objects)
    &&& hc_len(objects[ci.object_2 as int], ci.line_2 as int) != 0
    &&& hc_inv_den(objects[ci.object_1 as int], objects[ci.object_2 as int]) != 0
}

/// A body's exact state after resolution: advanced to the event time,
/// kicked along the unit normal `u` by `imp / mass` (the first body
/// positively, the second negatively), nudged apart by the bias, and its
/// collision count bumped.
pub open spec fn hc_resolved(o: Object, t: int, u: Vec2, imp: int, first: bool) -> Object {
    let adv = obj_advanced(o, t);
    let dvx = s_div(s_mul(imp, u.x as int), o.mass as int);
    let dvy = s_div(s_mul(imp, u.y as int), o.mass as int);
    let bx = s_mul(u.x as int, BIAS as int);
    let by = s_mul(u.y as int, BIAS as int);
    Object {
        velocity: Vec2 {
            x: (if first {
                s_add(adv.velocity.x as int, dvx)
            } else {
                s_sub(adv.velocity.x as int, dvx)
            }) as i64,
            y: (if first {
                s_add(adv.velocity.y as int, dvy)
            } else {
                s_sub(adv.velocity.y as int, dvy)
            }) as i64,
        },
        position: Vec2 {
            x: (if first {
                s_add(adv.position.x as int, bx)
            } else {
                s_sub(adv.position.x as int, bx)
            }) as i64,
            y: (if first {
                s_add(adv.position.y as int, by)
            } else {
                s_sub(adv.position.y as int, by)
            }) as i64,
        },
        collided: (adv.collided + 1) as usize,
        ..adv
    }
}

/// The world-space contact point recorded for debugging: the striking
/// vertex coasted to the event time.
pub open spec fn hc_col_pos(o1: Object, ci: CollisionInfo) -> Vec2 {
    world_pt(o1.shape@[ci.point_1 as int], o1.rotation, future_pos(o1, ci.time as int))
}

/// The event `c` is exactly what a corner-into-edge query of `sharp_id`
/// against `other_id` must return: a real crossing, stamped with the
/// bodies' current counters, and `ci_lt`-least among all crossing pairs.
pub open spec fn cc_valid(
    objects: Seq<Object>,
    te: int,
    sharp_id: int,
    other_id: int,
    c: CollisionInfo,
) -> bool {
    let so = objects[sharp_id];
    let oo = objects[other_id];
    &&& c.object_1 == sharp_id
    &&& c.object_2 == other_id
    &&& c.object_1_col_stamp == so.updated
    &&& c.object_2_col_stamp == oo.updated
    &&& c.point_1 < so.shape@.len()
    &&& c.line_2 < oo.shape@.len()
    &&& cc_hit(so, oo, te, c.point_1 as int, c.line_2 as int) == Some(c.time as int)
    &&& fx_wf(c.time)
    &&& forall|i: int, j: int|
        0 <= i < so.shape@.len() && 0 <= j < oo.shape@.len() && (#[trigger] cc_hit(
            so,
            oo,
            te,
            i,
            j,
        )) is Some ==> !ci_lt(
            cc_info(sharp_id, so, other_id, oo, cc_hit(so, oo, te, i, j).unwrap(), i, j),
            c,
        )
}

/// No corner of `sharp_id` crosses any edge of `other_id` in the window.
pub open spec fn cc_none(objects: Seq<Object>, te: int, sharp_id: int, other_id: int) -> bool {
    let so = objects[sharp_id];
    let oo = objects[other_id];
    forall|i: int, j: int|
        0 <= i < so.shape@.len() && 0 <= j < oo.shape@.len() ==> (#[trigger] cc_hit(
            so,
            oo,
            te,
            i,
            j,
        )) is None
}

/// The whole simulation: the body registry, the view transform, input
/// state handed in by the host, the global clock, and debug markers left
/// at resolved contacts.
pub struct CollisionSimulator {
    pub objects: Vec<Object>,
    pub camera: Camera,
    pub middle_clicked: bool,
    pub cursor_position: Vec2,
    pub last_cursor_position: Vec2,
    pub right_clicked: bool,
    pub time_elapsed: i64,
    pub frame_rate: usize,
    pub frame: usize,
    pub debug_points: Vec<Vec2>,
}

/// Well-formed simulator state.
pub open spec fn sim_wf(s: CollisionSimulator) -> bool {
    &&& objs_wf(s.objects@)
    &&& 0 <= s.time_elapsed
    &&& cam_wf(s.camera)
    &&& v2_wf(s.cursor_position)
    &&& v2_wf(s.last_cursor_position)
    &&& fx_wf(s.time_elapsed)
    &&& pts_wf(s.debug_points@)
}

/// The shared reference time of a body pair: the later of their clocks.
pub open spec fn cc_cur(sharp: Object, other: Object) -> int {
    if sharp.cur_time >= other.cur_time {
        sharp.cur_time as int
    } else {
        other.cur_time as int
    }
}

/// The sharp body's velocity in the frame where the other body rests.
pub open spec fn cc_rel_v(sharp: Object, other: Object) -> Vec2 {
    Vec2 {
        x: s_sub(sharp.velocity.x as int, other.velocity.x as int) as i64,
        y: s_sub(sharp.velocity.y as int, other.velocity.y as int) as i64,
    }
}

/// The crossing the pair `(vertex i of sharp, edge j of other)` yields
/// within `(cc_cur, te]`, with both bodies coasted to the shared time and
/// the other body held stationary.
pub open spec fn cc_hit(sharp: Object, other: Object, te: int, i: int, j: int) -> Option<int> {
    let cur = cc_cur(sharp, other);
    let sp = future_pos(sharp, cur);
    let op = future_pos(other, cur);
    let p = world_pt(sharp.shape@[i], sharp.rotation, sp);
    let a = world_pt(other.shape@[j], other.rotation, op);
    let b = world_pt(other.shape@[(j + 1) % (other.shape@.len() as int)], other.rotation, op);
    pair_hit(p, cc_rel_v(sharp, other), a, b, cur, te)
}

/// The event record a hit of pair `(i, j)` at time `t` produces.
pub open spec fn cc_info(
    sharp_id: int,
    sharp: Object,
    other_id: int,
    other: Object,
    t: int,
    i: int,
    j: int,
) -> CollisionInfo {
    CollisionInfo {
        time: t as i64,
        object_1: sharp_id as usize,
        object_1_col_stamp: sharp.updated,
        point_1: i as usize,
        object_2: other_id as usize,
        object_2_col_stamp: other.updated,
        line_2: j as usize,
    }
}

impl CollisionSimulator {
    /// An empty simulation at time zero, with the identity view.
    pub fn new() -> (s: CollisionSimulator)
        ensures
            s.objects@.len() == 0,
            s.camera == (Camera { translation: Vec2 { x: 0, y: 0 }, scale: SCALE }),
            s.middle_clicked == false,
            s.cursor_position == (Vec2 { x: 0, y: 0 }),
            s.last_cursor_position == (Vec2 { x: 0, y: 0 }),
            s.right_clicked == false,
            s.time_elapsed == 0,
            s.frame_rate == 0,
            s.frame == 0,
            s.debug_points@.len() == 0,
            sim_wf(s),
    {
        CollisionSimulator {
            objects: Vec::new(),
            camera: Camera::default(),
            middle_clicked: false,
            cursor_position: Vec2 { x: 0, y: 0 },
            last_cursor_position: Vec2 { x: 0, y: 0 },
            right_clicked: false,
            time_elapsed: 0,
            frame_rate: 0,
            frame: 0,
            debug_points: Vec::new(),
        }
    }

    /// Earliest crossing of a corner of the sharp body into an edge of
    /// the other body, in the frame where the other body is stationary.
    ///
    /// Returns the event whose `(time, tie-break fields)` are `ci_lt`-least
    /// among all vertex/edge pairs that yield a crossing in the window, or
    /// nothing when no pair does. The embedded stamps are the bodies'
    /// update counters as of this query.
    #[verifier::rlimit(80)]
    pub fn check_collision(&self, sharp_obj_id: usize, other_obj_id: usize) -> (r: Option<
        CollisionInfo>)
        requires
            sim_wf(*self),
            sharp_obj_id < self.objects@.len(),
            other_obj_id < self.objects@.len(),
        ensures
            ({
                let te = self.time_elapsed as int;
                match r {
                    Some(c) => cc_valid(
                        self.objects@,
                        te,
                        sharp_obj_id as int,
                        other_obj_id as int,
                        c,
                    ),
                    None => cc_none(self.objects@, te, sharp_obj_id as int, other_obj_id as int),
                }
            }),
    {
        let ghost so = self.objects@[sharp_obj_id as int];
        let ghost oo = self.objects@[other_obj_id as int];
        let ghost te = self.time_elapsed as int;
        let sharp = &self.objects[sharp_obj_id];
        let other = &self.objects[other_obj_id];
        let cur_time = if sharp.cur_time >= other.cur_time {
            sharp.cur_time
        } else {
            other.cur_time
        };
        let sharp_pos = sharp.position.plus(sharp.velocity.scale(fx_sub(cur_time, sharp.cur_time)));
        let other_pos = other.position.plus(other.velocity.scale(fx_sub(cur_time, other.cur_time)));
        let rel_v = sharp.velocity.minus(other.velocity);
        let sharp_pts = sharp.world_points_at(sharp_pos);
        let other_pts = other.world_points_at(other_pos);
        proof {
            assert(cur_time as int == cc_cur(so, oo));
            assert(sharp_pos == future_pos(so, cc_cur(so, oo)));
            assert(other_pos == future_pos(oo, cc_cur(so, oo)));
            assert(rel_v == cc_rel_v(so, oo));
            assert forall|k: int| 0 <= k < sharp_pts@.len() implies #[trigger] sharp_pts@[k]
                == world_pt(so.shape@[k], so.rotation, future_pos(so, cc_cur(so, oo))) by {
            }
            assert forall|k: int| 0 <= k < other_pts@.len() implies #[trigger] other_pts@[k]
                == world_pt(oo.shape@[k], oo.rotation, future_pos(oo, cc_cur(so, oo))) by {
            }
        }
        let sharp_updated = sharp.updated;
        let other_updated = other.updated;
        let m = other_pts.len();
        let mut collision: Option<CollisionInfo> = None;
        let mut i: usize = 0;
        while i < sharp_pts.len()
            invariant
                i <= sharp_pts@.len(),
                sharp_pts@.len() == so.shape@.len(),
                m == other_pts@.len(),
                m == oo.shape@.len(),
                m >= 1,
                sim_wf(*self),
                sharp_obj_id < self.objects@.len(),
                other_obj_id < self.objects@.len(),
                so == self.objects@[sharp_obj_id as int],
                oo == self.objects@[other_obj_id as int],
                te == self.time_elapsed as int,
                cur_time as int == cc_cur(so, oo),
                rel_v == cc_rel_v(so, oo),
                sharp_updated == so.updated,
                other_updated == oo.updated,
                pts_wf(sharp_pts@),
                pts_wf(other_pts@),
                fx_wf(cur_time),
                forall|k: int| 0 <= k < sharp_pts@.len() ==> #[trigger] sharp_pts@[k] == world_pt(
                    so.shape@[k],
                    so.rotation,
                    future_pos(so, cc_cur(so, oo)),
                ),
                forall|k: int| 0 <= k < other_pts@.len() ==> #[trigger] other_pts@[k] == world_pt(
                    oo.shape@[k],
                    oo.rotation,
                    future_pos(oo, cc_cur(so, oo)),
                ),
                match collision {
                    Some(c) => {
                        &&& c.object_1 == sharp_obj_id
                        &&& c.object_2 == other_obj_id
                        &&& c.object_1_col_stamp == so.updated
                        &&& c.object_2_col_stamp == oo.updated
                        &&& c.point_1 < i
                        &&& c.line_2 < m
                        &&& cc_hit(so, oo, te, c.point_1 as int, c.line_2 as int) == Some(
                            c.time as int,
                        )
                        &&& fx_wf(c.time)
                        &&& forall|i2: int, j2: int|
                            0 <= i2 < i && 0 <= j2 < m && (#[trigger] cc_hit(
                                so,
                                oo,
                                te,
                                i2,
                                j2,
                            )) is Some ==> !ci_lt(
                                cc_info(
                                    sharp_obj_id as int,
                                    so,
                                    other_obj_id as int,
                                    oo,
                                    cc_hit(so, oo, te, i2, j2).unwrap(),
                                    i2,
                                    j2,
                                ),
                                c,
                            )
                    },
                    None => forall|i2: int, j2: int|
                        0 <= i2 < i && 0 <= j2 < m ==> (#[trigger] cc_hit(
                            so,
                            oo,
                            te,
                            i2,
                            j2,
                        )) is None,
                },
            decreases sharp_pts@.len() - i,
        {
            let p = sharp_pts[i];
            let mut j: usize = 0;
            while j < m
                invariant
                    j <= m,
                    i < sharp_pts@.len(),
                    sharp_pts@.len() == so.shape@.len(),
                    m == other_pts@.len(),
                    m == oo.shape@.len(),
                    m >= 1,
                    p == sharp_pts@[i as int],
                    cur_time as int == cc_cur(so, oo),
                    rel_v == cc_rel_v(so, oo),
                    sharp_updated == so.updated,
                    other_updated == oo.updated,
                    pts_wf(sharp_pts@),
                    pts_wf(other_pts@),
                    fx_wf(cur_time),
                    fx_wf(self.time_elapsed),
                    te == self.time_elapsed as int,
                    v2_wf(rel_v),
                    forall|k: int| 0 <= k < sharp_pts@.len() ==> #[trigger] sharp_pts@[k]
                        == world_pt(so.shape@[k], so.rotation, future_pos(so, cc_cur(so, oo))),
                    forall|k: int| 0 <= k < other_pts@.len() ==> #[trigger] other_pts@[k]
                        == world_pt(oo.shape@[k], oo.rotation, future_pos(oo, cc_cur(so, oo))),
                    match collision {
                        Some(c) => {
                            &&& c.object_1 == sharp_obj_id
                            &&& c.object_2 == other_obj_id
                            &&& c.object_1_col_stamp == so.updated
                            &&& c.object_2_col_stamp == oo.updated
                            &&& (c.point_1 < i || (c.point_1 == i && c.line_2 < j))
                            &&& c.line_2 < m
                            &&& cc_hit(so, oo, te, c.point_1 as int, c.line_2 as int) == Some(
                                c.time as int,
                            )
                            &&& fx_wf(c.time)
                            &&& forall|i2: int, j2: int|
                                0 <= i2 < so.shape@.len() && 0 <= j2 < m && (i2 < i || (i2 == i
                                    && j2 < j)) && (#[trigger] cc_hit(
                                    so,
                                    oo,
                                    te,
                                    i2,
                                    j2,
                                )) is Some ==> !ci_lt(
                                    cc_info(
                                        sharp_obj_id as int,
                                        so,
                                        other_obj_id as int,
                                        oo,
                                        cc_hit(so, oo, te, i2, j2).unwrap(),
                                        i2,
                                        j2,
                                    ),
                                    c,
                                )
                        },
                        None => forall|i2: int, j2: int|
                            0 <= i2 < so.shape@.len() && 0 <= j2 < m && (i2 < i || (i2 == i && j2
                                < j)) ==> (#[trigger] cc_hit(so, oo, te, i2, j2)) is None,
                    },
                decreases m - j,
            {
                let a = other_pts[j];
                let jn = (j + 1) % m;
                let b = other_pts[jn];
                let hit = check_pair(p, rel_v, a, b, cur_time, self.time_elapsed);
                proof {
                    assert(jn as int == ((j + 1) as int) % (oo.shape@.len() as int));
                    assert(match hit {
                        Some(t) => cc_hit(so, oo, te, i as int, j as int) == Some(t as int),
                        None => cc_hit(so, oo, te, i as int, j as int) is None,
                    });
                }
                if let Some(time) = hit {
                    let candidate = CollisionInfo {
                        time,
                        object_1: sharp_obj_id,
                        object_1_col_stamp: sharp_updated,
                        point_1: i,
                        object_2: other_obj_id,
                        object_2_col_stamp: other_updated,
                        line_2: j,
                    };
                    proof {
                        assert(candidate == cc_info(
                            sharp_obj_id as int,
                            so,
                            other_obj_id as int,
                            oo,
                            time as int,
                            i as int,
                            j as int,
                        ));
                    }
                    match collision {
                        Some(cur_answer) => {
                            if ci_lt_exec(&candidate, &cur_answer) {
                                collision = Some(candidate);
                            }
                        },
                        None => {
                            collision = Some(candidate);
                        },
                    }
                }
                j = j + 1;
            }
            i = i + 1;
        }
        collision
    }

    /// Resolve one popped event, if it is still actionable.
    ///
    /// A stale event (either stamp no longer matching) or a degenerate
    /// contact is discarded: the result is false and nothing changes.
    /// Otherwise both bodies are advanced to the event time, receive the
    /// elastic impulse along the struck edge's unit normal, are nudged
    /// apart by the bias, have their collision counts bumped, and the
    /// contact point is recorded; the result is true.
    pub fn handle_collision(&mut self, col_info: CollisionInfo) -> (r: bool)
        requires
            sim_wf(*old(self)),
            col_info.object_1 < old(self).objects@.len(),
            col_info.object_2 < old(self).objects@.len(),
            col_info.object_1 != col_info.object_2,
            fx_wf(col_info.time),
            hc_stamps_match(col_info, old(self).objects@) ==> ({
                let o1 = old(self).objects@[col_info.object_1 as int];
                let o2 = old(self).objects@[col_info.object_2 as int];
                &&& col_info.point_1 < o1.shape@.len()
                &&& col_info.line_2 < o2.shape@.len()
                &&& col_info.time >= o1.cur_time
                &&& col_info.time >= o2.cur_time
                &&& o1.updated < usize::MAX
                &&& o2.updated < usize::MAX
                &&& o1.collided < usize::MAX
                &&& o2.collided < usize::MAX
            }),
        ensures
            r == hc_applies(col_info, old(self).objects@),
            !r ==> *final(self) == *old(self),
            r ==> ({
                let o1 = old(self).objects@[col_info.object_1 as int];
                let o2 = old(self).objects@[col_info.object_2 as int];
                let u = hc_unit(o2, col_info.line_2 as int);
                let imp = hc_impulse(o1, o2, col_info.time as int, u);
                &&& final(self).objects@ == old(self).objects@.update(
                    col_info.object_1 as int,
                    hc_resolved(o1, col_info.time as int, u, imp, true),
                ).update(
                    col_info.object_2 as int,
                    hc_resolved(o2, col_info.time as int, u, imp, false),
                )
                &&& final(self).debug_points@ == old(self).debug_points@.push(hc_col_pos(
                    o1,
                    col_info,
                ))
            }),
            final(self).objects@.len() == old(self).objects@.len(),
            final(self).camera == old(self).camera,
            final(self).middle_clicked == old(self).middle_clicked,
            final(self).cursor_position == old(self).cursor_position,
            final(self).last_cursor_position == old(self).last_cursor_position,
            final(self).right_clicked == old(self).right_clicked,
            final(self).time_elapsed == old(self).time_elapsed,
            final(self).frame_rate == old(self).frame_rate,
            final(self).frame == old(self).frame,
            sim_wf(*final(self)),
    {
        let o1i = col_info.object_1;
        let o2i = col_info.object_2;
        if col_info.object_1_col_stamp != self.objects[o1i].updated
            || col_info.object_2_col_stamp != self.objects[o2i].updated {
            return false;
        }
        let ghost so1 = self.objects@[o1i as int];
        let ghost so2 = self.objects@[o2i as int];
        proof {
            assert(hc_stamps_match(col_info, old(self).objects@));
            assert(col_info.line_2 < so2.shape@.len());
            assert(col_info.point_1 < so1.shape@.len());
        }
        let sharp = &self.objects[o1i];
        let other = &self.objects[o2i];
        let nsh = other.shape.len();
        proof {
            assert(col_info.line_2 < nsh);
        }
        let col_line_a = other.shape[col_info.line_2].rotate(other.rotation);
        let ln = (col_info.line_2 + 1) % nsh;
        let col_line_b = other.shape[ln].rotate(other.rotation);
        let d = col_line_a.minus(col_line_b);
        let normal_raw = d.perp();
        proof {
            assert(ln as int == ((col_info.line_2 + 1) as int) % (so2.shape@.len() as int));
            assert(normal_raw == hc_normal(so2, col_info.line_2 as int));
            assert((normal_raw.x as int) * (normal_raw.x as int) + (normal_raw.y as int) * (
            normal_raw.y as int) <= 2 * (0x3fff_ffff_ffff_ffff * 0x3fff_ffff_ffff_ffff)
                && (normal_raw.x as int) * (normal_raw.x as int) >= 0
                && (normal_raw.y as int) * (normal_raw.y as int) >= 0) by (nonlinear_arith)
                requires
                    -0x3fff_ffff_ffff_ffff <= normal_raw.x as int <= 0x3fff_ffff_ffff_ffff,
                    -0x3fff_ffff_ffff_ffff <= normal_raw.y as int <= 0x3fff_ffff_ffff_ffff;
        }
        let len2: i128 = (normal_raw.x as i128) * (normal_raw.x as i128) + (normal_raw.y as i128)
            * (normal_raw.y as i128);
        let len = isqrt(len2);
        if len == 0 {
            return false;
        }
        proof {
            assert(len as int == hc_len(so2, col_info.line_2 as int));
            assert(len <= 0x7fff_ffff_ffff_ffff) by (nonlinear_arith)
                requires
                    0 <= len,
                    (len as int) * (len as int) <= 2 * (0x3fff_ffff_ffff_ffff
                        * 0x3fff_ffff_ffff_ffff);
        }
        let len64: i64 = len as i64;
        let unit = Vec2 { x: fx_div(normal_raw.x, len64), y: fx_div(normal_raw.y, len64) };
        proof {
            assert(unit == hc_unit(so2, col_info.line_2 as int));
        }
        let den = fx_add(fx_div(SCALE, sharp.mass), fx_div(SCALE, other.mass));
        if den == 0 {
            return false;
        }
        proof {
            assert(hc_applies(col_info, old(self).objects@));
        }
        let fut = sharp.position.plus(sharp.velocity.scale(fx_sub(col_info.time, sharp.cur_time)));
        let col_pos = sharp.shape[col_info.point_1].rotate(sharp.rotation).plus(fut);
        proof {
            assert(col_pos == hc_col_pos(so1, col_info));
        }
        self.debug_points.push(col_pos);
        let t = col_info.time;
        // Advance both bodies to the event time first; the impulse is
        // taken from their velocities at that instant.
        let ghost before = self.objects@;
        let mut oa = self.objects.remove(o1i);
        oa.update(t);
        self.objects.insert(o1i, oa);
        proof {
            assert(self.objects@ =~= before.update(o1i as int, obj_advanced(so1, t as int)));
        }
        let ghost adv1s = self.objects@;
        let mut ob = self.objects.remove(o2i);
        ob.update(t);
        self.objects.insert(o2i, ob);
        proof {
            assert(self.objects@ =~= adv1s.update(o2i as int, obj_advanced(so2, t as int)));
            assert(self.objects@[o1i as int] == obj_advanced(so1, t as int));
            assert(self.objects@[o2i as int] == obj_advanced(so2, t as int));
        }
        let rel = self.objects[o1i].velocity.minus(self.objects[o2i].velocity);
        let num = fx_mul(-2 * SCALE, rel.dot(unit));
        let impulse = fx_div(num, den);
        proof {
            assert(rel == hc_rel_v(so1, so2, t as int));
            assert(impulse as int == hc_impulse(so1, so2, t as int, unit));
        }
        let ghost advanced = self.objects@;
        let mut o = self.objects.remove(o1i);
        o.velocity = Vec2 {
            x: fx_add(o.velocity.x, fx_div(fx_mul(impulse, unit.x), o.mass)),
            y: fx_add(o.velocity.y, fx_div(fx_mul(impulse, unit.y), o.mass)),
        };
        o.collided = o.collided + 1;
        o.position = Vec2 {
            x: fx_add(o.position.x, fx_mul(unit.x, BIAS)),
            y: fx_add(o.position.y, fx_mul(unit.y, BIAS)),
        };
        proof {
            assert(o == hc_resolved(so1, t as int, unit, impulse as int, true));
        }
        self.objects.insert(o1i, o);
        proof {
            assert(self.objects@ =~= advanced.update(
                o1i as int,
                hc_resolved(so1, t as int, unit, impulse as int, true),
            ));
        }
        let ghost mid = self.objects@;
        let mut o2 = self.objects.remove(o2i);
        o2.velocity = Vec2 {
            x: fx_sub(o2.velocity.x, fx_div(fx_mul(impulse, unit.x), o2.mass)),
            y: fx_sub(o2.velocity.y, fx_div(fx_mul(impulse, unit.y), o2.mass)),
        };
        o2.collided = o2.collided + 1;
        o2.position = Vec2 {
            x: fx_sub(o2.position.x, fx_mul(unit.x, BIAS)),
            y: fx_sub(o2.position.y, fx_mul(unit.y, BIAS)),
        };
        proof {
            assert(o2 == hc_resolved(so2, t as int, unit, impulse as int, false));
        }
        self.objects.insert(o2i, o2);
        proof {
            assert(self.objects@ =~= mid.update(
                o2i as int,
                hc_resolved(so2, t as int, unit, impulse as int, false),
            ));
            assert(self.objects@ =~= old(self).objects@.update(
                o1i as int,
                hc_resolved(so1, t as int, unit, impulse as int, true),
            ).update(o2i as int, hc_resolved(so2, t as int, unit, impulse as int, false)));
            assert forall|k: int| 0 <= k < self.objects@.len() implies obj_wf(
                #[trigger] self.objects@[k],
            ) && self.objects@[k].shape@.len() >= 1 by {
                if k != o1i as int && k != o2i as int {
                    assert(self.objects@[k] == old(self).objects@[k]);
                }
            }
        }
        true
    }

    /// All collision candidates between `obj_id` and every other live
    /// body, both directions queried for each pair so that either body's
    /// corners striking the other's edges are caught.
    #[verifier::rlimit(80)]
    pub fn check_collisions(&self, obj_id: usize) -> (r: Vec<CollisionInfo>)
        requires
            sim_wf(*self),
            obj_id < self.objects@.len(),
        ensures
            forall|k: int| 0 <= k < r@.len() ==> ({
                let c = #[trigger] r@[k];
                ||| (c.object_1 == obj_id && c.object_2 < self.objects@.len() && c.object_2
                    != obj_id && cc_valid(
                    self.objects@,
                    self.time_elapsed as int,
                    obj_id as int,
                    c.object_2 as int,
                    c,
                ))
                ||| (c.object_2 == obj_id && c.object_1 < self.objects@.len() && c.object_1
                    != obj_id && cc_valid(
                    self.objects@,
                    self.time_elapsed as int,
                    c.object_1 as int,
                    obj_id as int,
                    c,
                ))
            }),
            forall|i: int| 0 <= i < self.objects@.len() && i != obj_id && !cc_none(
                self.objects@,
                self.time_elapsed as int,
                obj_id as int,
                i,
            ) ==> exists|k: int| 0 <= k < r@.len() && (#[trigger] r@[k]).object_1 == obj_id
                && r@[k].object_2 == i,
            forall|i: int| 0 <= i < self.objects@.len() && i != obj_id && !cc_none(
                self.objects@,
                self.time_elapsed as int,
                i,
                obj_id as int,
            ) ==> exists|k: int| 0 <= k < r@.len() && (#[trigger] r@[k]).object_1 == i
                && r@[k].object_2 == obj_id,
    {
        let ghost te = self.time_elapsed as int;
        let mut result: Vec<CollisionInfo> = Vec::new();
        let mut i: usize = 0;
        while i < self.objects.len()
            invariant
                i <= self.objects@.len(),
                sim_wf(*self),
                obj_id < self.objects@.len(),
                te == self.time_elapsed as int,
                forall|k: int| 0 <= k < result@.len() ==> ({
                    let c = #[trigger] result@[k];
                    ||| (c.object_1 == obj_id && c.object_2 < self.objects@.len() && c.object_2
                        != obj_id && cc_valid(self.objects@, te, obj_id as int, c.object_2 as int, c))
                    ||| (c.object_2 == obj_id && c.object_1 < self.objects@.len() && c.object_1
                        != obj_id && cc_valid(self.objects@, te, c.object_1 as int, obj_id as int, c))
                }),
                forall|i2: int| 0 <= i2 < i && i2 != obj_id && !cc_none(
                    self.objects@,
                    te,
                    obj_id as int,
                    i2,
                ) ==> exists|k: int| 0 <= k < result@.len() && (#[trigger] result@[k]).object_1
                    == obj_id && result@[k].object_2 == i2,
                forall|i2: int| 0 <= i2 < i && i2 != obj_id && !cc_none(
                    self.objects@,
                    te,
                    i2,
                    obj_id as int,
                ) ==> exists|k: int| 0 <= k < result@.len() && (#[trigger] result@[k]).object_1
                    == i2 && result@[k].object_2 == obj_id,
            decreases self.objects@.len() - i,
        {
            if obj_id != i {
                let ghost r0 = result@;
                let fwd = self.check_collision(obj_id, i);
                if let Some(collision) = fwd {
                    result.push(collision);
                }
                let ghost r1 = result@;
                let bwd = self.check_collision(i, obj_id);
                if let Some(collision) = bwd {
                    result.push(collision);
                }
                proof {
                    if fwd is Some {
                        assert(result@[r0.len() as int] == fwd.unwrap());
                    }
                    if bwd is Some {
                        assert(result@[r1.len() as int] == bwd.unwrap());
                    }
                    assert forall|k: int| 0 <= k < r0.len() implies result@[k] == r0[k] by {}
                    assert forall|i2: int|
                        0 <= i2 < i + 1 && i2 != obj_id && !cc_none(
                            self.objects@,
                            te,
                            obj_id as int,
                            i2,
                        ) implies exists|k: int|
                        0 <= k < result@.len() && (#[trigger] result@[k]).object_1 == obj_id
                            && result@[k].object_2 == i2 by {
                        if i2 < i {
                            let k = choose|k: int|
                                0 <= k < r0.len() && (#[trigger] r0[k]).object_1 == obj_id
                                    && r0[k].object_2 == i2;
                            assert(result@[k].object_1 == obj_id && result@[k].object_2 == i2);
                        } else {
                            assert(fwd is Some);
                            assert(result@[r0.len() as int].object_1 == obj_id
                                && result@[r0.len() as int].object_2 == i2);
                        }
                    }
                    assert forall|i2: int|
                        0 <= i2 < i + 1 && i2 != obj_id && !cc_none(
                            self.objects@,
                            te,
                            i2,
                            obj_id as int,
                        ) implies exists|k: int|
                        0 <= k < result@.len() && (#[trigger] result@[k]).object_1 == i2
                            && result@[k].object_2 == obj_id by {
                        if i2 < i {
                            let k = choose|k: int|
                                0 <= k < r1.len() && (#[trigger] r1[k]).object_1 == i2
                                    && r1[k].object_2 == obj_id;
                            assert(result@[k].object_1 == i2 && result@[k].object_2 == obj_id);
                        } else {
                            assert(bwd is Some);
                            assert(result@[r1.len() as int].object_1 == i2
                                && result@[r1.len() as int].object_2 == obj_id);
                        }
                    }
                }
            }
            i = i + 1;
        }
        result
    }

    /// Total kinetic energy of the live bodies: the sum of
    /// `1/2 * mass * |velocity|^2`.
    pub fn total_energy(&self) -> (r: i64)
        requires
            sim_wf(*self),
        ensures
            r as int == energy_sum(self.objects@),
            fx_wf(r),
    {
        let mut total: i64 = 0;
        let mut i: usize = 0;
        while i < self.objects.len()
            invariant
                i <= self.objects@.len(),
                sim_wf(*self),
                total as int == energy_sum(self.objects@.take(i as int)),
                fx_wf(total),
            decreases self.objects@.len() - i,
        {
            let o = &self.objects[i];
            total = fx_add(total, fx_mul(fx_mul(HALF, o.mass), o.velocity.dot(o.velocity)));
            proof {
                assert(self.objects@.take(i + 1).drop_last() =~= self.objects@.take(i as int));
                assert(self.objects@.take(i + 1).last() == self.objects@[i as int]);
            }
            i = i + 1;
        }
        proof {
            assert(self.objects@.take(self.objects@.len() as int) =~= self.objects@);
        }
        total
    }

    /// Pan the view while the middle button is held: shift the camera by
    /// the cursor's motion scaled back into world units.
    pub fn update_camera(&mut self)
        requires
            sim_wf(*old(self)),
        ensures
            old(self).middle_clicked ==> ({
                let dx = s_div(
                    s_sub(
                        old(self).cursor_position.x as int,
                        old(self).last_cursor_position.x as int,
                    ),
                    old(self).camera.scale as int,
                );
                let dy = s_div(
                    s_sub(
                        old(self).cursor_position.y as int,
                        old(self).last_cursor_position.y as int,
                    ),
                    old(self).camera.scale as int,
                );
                final(self).camera.translation.x as int == s_add(
                    old(self).camera.translation.x as int,
                    dx,
                ) && final(self).camera.translation.y as int == s_add(
                    old(self).camera.translation.y as int,
                    dy,
                )
            }),
            !old(self).middle_clicked ==> *final(self) == *old(self),
            final(self).camera.scale == old(self).camera.scale,
            final(self).objects == old(self).objects,
            final(self).middle_clicked == old(self).middle_clicked,
            final(self).cursor_position == old(self).cursor_position,
            final(self).last_cursor_position == old(self).last_cursor_position,
            final(self).right_clicked == old(self).right_clicked,
            final(self).time_elapsed == old(self).time_elapsed,
            final(self).frame_rate == old(self).frame_rate,
            final(self).frame == old(self).frame,
            final(self).debug_points == old(self).debug_points,
            sim_wf(*final(self)),
    {
        if self.middle_clicked {
            let delta = Vec2 {
                x: fx_div(fx_sub(self.cursor_position.x, self.last_cursor_position.x),
                    self.camera.scale),
                y: fx_div(fx_sub(self.cursor_position.y, self.last_cursor_position.y),
                    self.camera.scale),
            };
            self.camera.translation = self.camera.translation.plus(delta);
        }
    }
}

/// One-half, in fixed point.
pub const HALF: i64 = 500_000;

/// Most collisions resolved in one frame. The drain loop is event-driven
/// and in principle unbounded; a hard per-frame resolution budget turns a
/// pathological cascade into a truncated frame instead of a frame that
/// never ends (discarding a stale or degenerate event costs no budget,
/// since the queue only shrinks then).
pub const EVENT_BUDGET: usize = 10_000;

/// A queued event the resolution loop may safely act on: its body indices
/// are live and distinct, its time is inside the frame horizon `te`, its
/// stamps never run ahead of the live counters, and whenever both stamps
/// still match, its vertex/edge indices are in range and its time does
/// not lie in either body's past.
pub open spec fn valid_queued(e: CollisionInfo, objects: Seq<Object>, te: int) -> bool {
    &&& e.object_1 < objects.len()
    &&& e.object_2 < objects.len()
    &&& e.object_1 != e.object_2
    &&& fx_wf(e.time)
    &&& e.time as int <= te
    &&& e.object_1_col_stamp <= objects[e.object_1 as int].updated
    &&& e.object_2_col_stamp <= objects[e.object_2 as int].updated
    &&& (hc_stamps_match(e, objects) ==> ({
        let o1 = objects[e.object_1 as int];
        let o2 = objects[e.object_2 as int];
        &&& e.point_1 < o1.shape@.len()
        &&& e.line_2 < o2.shape@.len()
        &&& e.time >= o1.cur_time
        &&& e.time >= o2.cur_time
    }))
}

/// Half of a true swept-interval overlap on the x axis: some swept
/// vertex of the first body lies at or left of one of the second's.
pub open spec fn swept_x_le(o1: Object, o2: Object, te: int) -> bool {
    exists|a: int, b: int|
        0 <= a < swept_inputs(o1, te).len() && 0 <= b < swept_inputs(o2, te).len() && (
        #[trigger] swept_inputs(o1, te)[a]).x <= (#[trigger] swept_inputs(o2, te)[b]).x
}

/// The two bodies' true swept x-intervals overlap.
pub open spec fn swept_x_overlap(o1: Object, o2: Object, te: int) -> bool {
    swept_x_le(o1, o2, te) && swept_x_le(o2, o1, te)
}

/// A pair of live bodies the resolution pass cannot ignore: their swept
/// intervals truly overlap (so the broad phase proposes the pair), some
/// corner of the first crosses some edge of the second inside the frame
/// window, every edge such a crossing strikes has a non-zero normal, and
/// the pair's inverse-mass sum is representable. For such a pair the
/// pass must resolve at least one collision.
pub open spec fn uc_must_resolve(objects: Seq<Object>, te: int, i: int, j: int) -> bool {
    &&& 0 <= i < objects.len()
    &&& 0 <= j < objects.len()
    &&& i != j
    &&& swept_x_overlap(objects[i], objects[j], te)
    &&& !cc_none(objects, te, i, j)
    &&& hc_inv_den(objects[i], objects[j]) != 0
    &&& forall|vi: int, ej: int|
        0 <= vi < objects[i].shape@.len() && 0 <= ej < objects[j].shape@.len() && (
        #[trigger] cc_hit(objects[i], objects[j], te, vi, ej)) is Some ==> hc_len(
            objects[j],
            ej,
        ) != 0
}

/// A fresh narrow-phase result is a safely queueable event.
pub proof fn lemma_cc_valid_queued(
    objects: Seq<Object>,
    te: int,
    sharp: int,
    other: int,
    c: CollisionInfo,
)
    requires
        0 <= sharp < objects.len(),
        0 <= other < objects.len(),
        sharp != other,
        cc_valid(objects, te, sharp, other, c),
    ensures
        valid_queued(c, objects, te),
{
    let so = objects[sharp];
    let oo = objects[other];
    assert(cc_hit(so, oo, te, c.point_1 as int, c.line_2 as int) == Some(c.time as int));
    assert(c.time as int > cc_cur(so, oo));
    assert(cc_cur(so, oo) >= so.cur_time as int && cc_cur(so, oo) >= oo.cur_time as int);
}

/// Remove and return the `ci_lt`-least queued event (the first such, on
/// ties).
fn pop_min(queue: &mut Vec<CollisionInfo>) -> (e: CollisionInfo)
    requires
        old(queue)@.len() > 0,
    ensures
        old(queue)@.contains(e),
        final(queue)@.len() == old(queue)@.len() - 1,
        exists|m: int|
            0 <= m < old(queue)@.len() && old(queue)@[m] == e && final(queue)@ == old(
                queue,
            )@.remove(m),
        forall|k: int| 0 <= k < final(queue)@.len() ==> old(queue)@.contains(
            #[trigger] final(queue)@[k],
        ),
        forall|k: int| 0 <= k < old(queue)@.len() ==> !ci_lt(#[trigger] old(queue)@[k], e),
{
    let mut best: usize = 0;
    let mut k: usize = 1;
    while k < queue.len()
        invariant
            best < k,
            k <= queue@.len(),
            forall|j: int| 0 <= j < k ==> !ci_lt(#[trigger] queue@[j], queue@[best as int]),
        decreases queue@.len() - k,
    {
        if ci_lt_exec(&queue[k], &queue[best]) {
            let ghost ob = best as int;
            best = k;
            proof {
                assert forall|j: int| 0 <= j < k + 1 implies !ci_lt(
                    #[trigger] queue@[j],
                    queue@[best as int],
                ) by {
                    if j < k && ci_lt(queue@[j], queue@[best as int]) {
                        assert(ci_lt(queue@[j], queue@[ob]));
                    }
                }
            }
        }
        k = k + 1;
    }
    let ghost q0 = queue@;
    let ghost b = best as int;
    let e = queue.remove(best);
    proof {
        assert(q0.contains(e)) by {
            assert(q0[b] == e);
        }
        assert(0 <= b < q0.len() && q0[b] == e && queue@ == q0.remove(b));
        assert forall|k2: int| 0 <= k2 < queue@.len() implies q0.contains(
            #[trigger] queue@[k2],
        ) by {
            if k2 < b {
                assert(queue@[k2] == q0[k2]);
            } else {
                assert(queue@[k2] == q0[k2 + 1]);
            }
        }
    }
    e
}

impl CollisionSimulator {
    /// Refresh one body's broad-phase interval and push every event its
    /// candidates yield, both directions per candidate pair.
    #[verifier::rlimit(100)]
    fn reseed(&self, bp: &mut BroadPhase, queue: &mut Vec<CollisionInfo>, i: usize)
        requires
            sim_wf(*self),
            i < self.objects@.len(),
            old(bp).entries@.len() == self.objects@.len(),
            forall|c: int| 0 <= c < old(bp).entries@.len()
                ==> (#[trigger] old(bp).entries@[c]).index == c,
            forall|k: int| 0 <= k < old(queue)@.len() ==> valid_queued(
                #[trigger] old(queue)@[k],
                self.objects@,
                self.time_elapsed as int,
            ),
        ensures
            final(bp).entries@.len() == self.objects@.len(),
            forall|c: int| 0 <= c < final(bp).entries@.len()
                ==> (#[trigger] final(bp).entries@[c]).index == c,
            forall|k: int| 0 <= k < final(queue)@.len() ==> valid_queued(
                #[trigger] final(queue)@[k],
                self.objects@,
                self.time_elapsed as int,
            ),
            old(queue)@.len() <= final(queue)@.len(),
            forall|k: int| 0 <= k < old(queue)@.len() ==> final(queue)@[k] == old(queue)@[k],
            bp_fresh(*old(bp), self.objects@, self.time_elapsed as int) ==> final(bp).entries@
                == old(bp).entries@,
            bp_fresh(*old(bp), self.objects@, self.time_elapsed as int) ==> forall|c: int|
                0 <= c < self.objects@.len() && c != i && cand(
                    #[trigger] old(bp).entries@[c],
                    old(bp).entries@[i as int],
                ) ==> ({
                    &&& (!cc_none(self.objects@, self.time_elapsed as int, i as int, c)
                        ==> exists|k: int|
                            0 <= k < final(queue)@.len() && #[trigger] cc_valid(
                                self.objects@,
                                self.time_elapsed as int,
                                i as int,
                                c,
                                final(queue)@[k],
                            ))
                    &&& (!cc_none(self.objects@, self.time_elapsed as int, c, i as int)
                        ==> exists|k: int|
                            0 <= k < final(queue)@.len() && #[trigger] cc_valid(
                                self.objects@,
                                self.time_elapsed as int,
                                c,
                                i as int,
                                final(queue)@[k],
                            ))
                }),
    {
        let ghost te = self.time_elapsed as int;
        let ghost bp0 = *bp;
        bp.update(&self.objects, i, self.time_elapsed);
        proof {
            if bp_fresh(bp0, self.objects@, te) {
                assert(entry_bounds_ok(bp0.entries@[i as int], self.objects@[i as int], te));
                lemma_extent_unique(
                    bp.entries@[i as int],
                    bp0.entries@[i as int],
                    self.objects@[i as int],
                    te,
                );
                assert(bp.entries@ =~= bp0.entries@);
            }
        }
        let cands = bp.query_overlaps(i);
        let ghost q0 = queue@;
        let mut k: usize = 0;
        while k < cands.len()
            invariant
                k <= cands@.len(),
                sim_wf(*self),
                i < self.objects@.len(),
                te == self.time_elapsed as int,
                forall|k2: int| 0 <= k2 < cands@.len() ==> (#[trigger] cands@[k2])
                    < self.objects@.len(),
                forall|k2: int| 0 <= k2 < queue@.len() ==> valid_queued(
                    #[trigger] queue@[k2],
                    self.objects@,
                    te,
                ),
                q0.len() <= queue@.len(),
                forall|k2: int| 0 <= k2 < q0.len() ==> queue@[k2] == q0[k2],
                forall|k2: int|
                    0 <= k2 < k && (#[trigger] cands@[k2]) != i ==> ({
                        &&& (!cc_none(self.objects@, te, i as int, cands@[k2] as int)
                            ==> exists|kk: int|
                                0 <= kk < queue@.len() && #[trigger] cc_valid(
                                    self.objects@,
                                    te,
                                    i as int,
                                    cands@[k2] as int,
                                    queue@[kk],
                                ))
                        &&& (!cc_none(self.objects@, te, cands@[k2] as int, i as int)
                            ==> exists|kk: int|
                                0 <= kk < queue@.len() && #[trigger] cc_valid(
                                    self.objects@,
                                    te,
                                    cands@[k2] as int,
                                    i as int,
                                    queue@[kk],
                                ))
                    }),
            decreases cands@.len() - k,
        {
            let cand_id = cands[k];
            let ghost qs = queue@;
            if cand_id != i {
                let fwd = self.check_collision(i, cand_id);
                if let Some(ci) = fwd {
                    proof {
                        lemma_cc_valid_queued(self.objects@, te, i as int, cand_id as int, ci);
                    }
                    queue.push(ci);
                }
                let ghost q1 = queue@;
                let bwd = self.check_collision(cand_id, i);
                if let Some(ci) = bwd {
                    proof {
                        lemma_cc_valid_queued(self.objects@, te, cand_id as int, i as int, ci);
                    }
                    queue.push(ci);
                }
                proof {
                    if fwd is Some {
                        assert(queue@[q1.len() - 1] == fwd.unwrap());
                        assert(cc_valid(
                            self.objects@,
                            te,
                            i as int,
                            cand_id as int,
                            queue@[q1.len() - 1],
                        ));
                    } else {
                        assert(cc_none(self.objects@, te, i as int, cand_id as int));
                    }
                    if bwd is Some {
                        assert(queue@[q1.len() as int] == bwd.unwrap());
                        assert(cc_valid(
                            self.objects@,
                            te,
                            cand_id as int,
                            i as int,
                            queue@[q1.len() as int],
                        ));
                    } else {
                        assert(cc_none(self.objects@, te, cand_id as int, i as int));
                    }
                }
            }
            proof {
                assert forall|k2: int|
                    0 <= k2 < k + 1 && (#[trigger] cands@[k2]) != i implies ({
                        &&& (!cc_none(self.objects@, te, i as int, cands@[k2] as int)
                            ==> exists|kk: int|
                                0 <= kk < queue@.len() && #[trigger] cc_valid(
                                    self.objects@,
                                    te,
                                    i as int,
                                    cands@[k2] as int,
                                    queue@[kk],
                                ))
                        &&& (!cc_none(self.objects@, te, cands@[k2] as int, i as int)
                            ==> exists|kk: int|
                                0 <= kk < queue@.len() && #[trigger] cc_valid(
                                    self.objects@,
                                    te,
                                    cands@[k2] as int,
                                    i as int,
                                    queue@[kk],
                                ))
                    }) by {
                    if k2 < k {
                        if !cc_none(self.objects@, te, i as int, cands@[k2] as int) {
                            let kk = choose|kk: int|
                                0 <= kk < qs.len() && #[trigger] cc_valid(
                                    self.objects@,
                                    te,
                                    i as int,
                                    cands@[k2] as int,
                                    qs[kk],
                                );
                            assert(queue@[kk] == qs[kk]);
                            assert(cc_valid(
                                self.objects@,
                                te,
                                i as int,
                                cands@[k2] as int,
                                queue@[kk],
                            ));
                        }
                        if !cc_none(self.objects@, te, cands@[k2] as int, i as int) {
                            let kk = choose|kk: int|
                                0 <= kk < qs.len() && #[trigger] cc_valid(
                                    self.objects@,
                                    te,
                                    cands@[k2] as int,
                                    i as int,
                                    qs[kk],
                                );
                            assert(queue@[kk] == qs[kk]);
                            assert(cc_valid(
                                self.objects@,
                                te,
                                cands@[k2] as int,
                                i as int,
                                queue@[kk],
                            ));
                        }
                    }
                }
            }
            k = k + 1;
        }
        proof {
            if bp_fresh(bp0, self.objects@, te) {
                assert forall|c: int|
                    0 <= c < self.objects@.len() && c != i && cand(
                        #[trigger] bp0.entries@[c],
                        bp0.entries@[i as int],
                    ) implies ({
                        &&& (!cc_none(self.objects@, te, i as int, c) ==> exists|kk: int|
                            0 <= kk < queue@.len() && #[trigger] cc_valid(
                                self.objects@,
                                te,
                                i as int,
                                c,
                                queue@[kk],
                            ))
                        &&& (!cc_none(self.objects@, te, c, i as int) ==> exists|kk: int|
                            0 <= kk < queue@.len() && #[trigger] cc_valid(
                                self.objects@,
                                te,
                                c,
                                i as int,
                                queue@[kk],
                            ))
                    }) by {
                    assert(cand(bp.entries@[c], bp.entries@[i as int]));
                    assert(cands@.contains(c as usize));
                    let k2 = choose|k2: int| 0 <= k2 < cands@.len() && cands@[k2] == c as usize;
                    assert(cands@[k2] != i);
                }
            }
        }
    }

    /// One frame's collision pass. Seed: rebuild the broad phase and push
    /// every candidate pair's events, both directions per pair. Drain:
    /// repeatedly pop the earliest event, discard it if stale, otherwise
    /// resolve it and re-seed the two touched bodies, until the queue
    /// empties or the per-frame resolution budget is spent.
    ///
    /// Besides bounding what may change, the contract promises work: a
    /// body whose update stamp is unchanged is untouched entirely, and
    /// whenever some pair of live bodies must be resolved (see
    /// `uc_must_resolve`), at least one collision is: some body's
    /// collision counter strictly grows.
    #[verifier::rlimit(100)]
    pub fn update_collisions(&mut self, dt: i64)
        requires
            sim_wf(*old(self)),
            forall|i: int| 0 <= i < old(self).objects@.len() ==> (#[trigger] old(
                self,
            ).objects@[i]).updated + 2 * EVENT_BUDGET + 2 < usize::MAX && old(
                self,
            ).objects@[i].collided + EVENT_BUDGET < usize::MAX,
        ensures
            sim_wf(*final(self)),
            final(self).objects@.len() == old(self).objects@.len(),
            forall|i: int| 0 <= i < old(self).objects@.len() ==> ({
                let o = #[trigger] final(self).objects@[i];
                let p = old(self).objects@[i];
                &&& o.shape == p.shape
                &&& o.mass == p.mass
                &&& o.rotation == p.rotation
                &&& o.rot_velocity == p.rot_velocity
                &&& o.acceleration == p.acceleration
                &&& o.cur_time >= p.cur_time
                &&& (o.cur_time as int <= p.cur_time as int || o.cur_time as int <= old(
                    self,
                ).time_elapsed as int)
                &&& p.updated <= o.updated <= p.updated + EVENT_BUDGET
                &&& p.collided <= o.collided <= p.collided + EVENT_BUDGET
            }),
            forall|i: int|
                0 <= i < old(self).objects@.len() && (#[trigger] final(self).objects@[i]).updated
                    == old(self).objects@[i].updated
                    ==> final(self).objects@[i] == old(self).objects@[i],
            (exists|i: int, j: int|
                uc_must_resolve(old(self).objects@, old(self).time_elapsed as int, i, j))
                ==> exists|i: int|
                    0 <= i < old(self).objects@.len()
                        && (#[trigger] final(self).objects@[i]).collided > old(
                        self,
                    ).objects@[i].collided,
            final(self).camera == old(self).camera,
            final(self).middle_clicked == old(self).middle_clicked,
            final(self).cursor_position == old(self).cursor_position,
            final(self).last_cursor_position == old(self).last_cursor_position,
            final(self).right_clicked == old(self).right_clicked,
            final(self).time_elapsed == old(self).time_elapsed,
            final(self).frame_rate == old(self).frame_rate,
            final(self).frame == old(self).frame,
            old(self).debug_points@.is_prefix_of(final(self).debug_points@),
    {
        let te = self.time_elapsed;
        let ghost te_i = te as int;
        let mut bp = BroadPhase::rebuild(&self.objects, te);
        let mut queue: Vec<CollisionInfo> = Vec::new();
        let mut i: usize = 0;
        while i < self.objects.len()
            invariant
                i <= self.objects@.len(),
                *self == *old(self),
                sim_wf(*self),
                te == self.time_elapsed,
                te_i == te as int,
                bp.entries@.len() == self.objects@.len(),
                forall|c: int| 0 <= c < bp.entries@.len() ==> (#[trigger] bp.entries@[c]).index
                    == c,
                bp_fresh(bp, self.objects@, te_i),
                forall|k: int| 0 <= k < queue@.len() ==> valid_queued(
                    #[trigger] queue@[k],
                    self.objects@,
                    te_i,
                ),
                forall|a: int, b: int|
                    #![trigger bp.entries@[a], bp.entries@[b]]
                    0 <= a < self.objects@.len() && 0 <= b < self.objects@.len() && a != b && ((a
                        < i && cand(bp.entries@[b], bp.entries@[a])) || (b < i && cand(
                        bp.entries@[a],
                        bp.entries@[b],
                    ))) ==> (!cc_none(self.objects@, te_i, a, b) ==> exists|kk: int|
                        0 <= kk < queue@.len() && #[trigger] cc_valid(
                            self.objects@,
                            te_i,
                            a,
                            b,
                            queue@[kk],
                        )),
            decreases self.objects@.len() - i,
        {
            let ghost q_pre = queue@;
            let ghost bp_pre = bp;
            self.reseed(&mut bp, &mut queue, i);
            proof {
                assert(bp.entries@ == bp_pre.entries@);
                assert forall|a: int, b: int|
                    #![trigger bp.entries@[a], bp.entries@[b]]
                    0 <= a < self.objects@.len() && 0 <= b < self.objects@.len() && a != b && ((a
                        < i + 1 && cand(bp.entries@[b], bp.entries@[a])) || (b < i + 1 && cand(
                        bp.entries@[a],
                        bp.entries@[b],
                    ))) implies (!cc_none(self.objects@, te_i, a, b) ==> exists|kk: int|
                        0 <= kk < queue@.len() && #[trigger] cc_valid(
                            self.objects@,
                            te_i,
                            a,
                            b,
                            queue@[kk],
                        )) by {
                    if !cc_none(self.objects@, te_i, a, b) {
                        if (a < i && cand(bp.entries@[b], bp.entries@[a])) || (b < i && cand(
                            bp.entries@[a],
                            bp.entries@[b],
                        )) {
                            let kk = choose|kk: int|
                                0 <= kk < q_pre.len() && #[trigger] cc_valid(
                                    self.objects@,
                                    te_i,
                                    a,
                                    b,
                                    q_pre[kk],
                                );
                            assert(queue@[kk] == q_pre[kk]);
                            assert(cc_valid(self.objects@, te_i, a, b, queue@[kk]));
                        } else if a == i {
                            assert(cand(bp_pre.entries@[b], bp_pre.entries@[i as int]));
                        } else {
                            assert(b == i);
                            assert(cand(bp_pre.entries@[a], bp_pre.entries@[i as int]));
                        }
                    }
                }
            }
            i = i + 1;
        }
        let ghost hyp = exists|a: int, b: int| uc_must_resolve(old(self).objects@, te_i, a, b);
        let ghost pick: (int, int) = if hyp {
            choose|a: int, b: int| uc_must_resolve(old(self).objects@, te_i, a, b)
        } else {
            (0int, 0int)
        };
        proof {
            if hyp {
                assert(uc_must_resolve(old(self).objects@, te_i, pick.0, pick.1));
                let oi = self.objects@[pick.0];
                let oj = self.objects@[pick.1];
                let ei = bp.entries@[pick.0];
                let ej = bp.entries@[pick.1];
                assert(entry_bounds_ok(ei, oi, te_i));
                assert(entry_bounds_ok(ej, oj, te_i));
                let si = swept_inputs(oi, te_i);
                let sj = swept_inputs(oj, te_i);
                let (wa, wb) = choose|wa: int, wb: int|
                    0 <= wa < si.len() && 0 <= wb < sj.len() && (#[trigger] si[wa]).x <= (
                    #[trigger] sj[wb]).x;
                assert(ei.min_x <= si[wa].x && sj[wb].x <= ej.max_x);
                let (wc, wd) = choose|wc: int, wd: int|
                    0 <= wc < sj.len() && 0 <= wd < si.len() && (#[trigger] sj[wc]).x <= (
                    #[trigger] si[wd]).x;
                assert(ej.min_x <= sj[wc].x && si[wd].x <= ei.max_x);
                let am = choose|j: int| 0 <= j < si.len() && ei.min_x == (#[trigger] si[j]).x;
                assert(ei.min_x <= ei.max_x);
                let bm = choose|j: int| 0 <= j < sj.len() && ej.min_x == (#[trigger] sj[j]).x;
                assert(ej.min_x <= ej.max_x);
                lemma_query_no_false_negative(ei, ej);
                assert(exists|kk: int|
                    0 <= kk < queue@.len() && #[trigger] cc_valid(
                        self.objects@,
                        te_i,
                        pick.0,
                        pick.1,
                        queue@[kk],
                    ));
            }
        }
        let ghost e0: CollisionInfo = if hyp {
            queue@[choose|kk: int|
                0 <= kk < queue@.len() && #[trigger] cc_valid(
                    self.objects@,
                    te_i,
                    pick.0,
                    pick.1,
                    queue@[kk],
                )]
        } else {
            arbitrary()
        };
        proof {
            if hyp {
                assert(cc_valid(old(self).objects@, te_i, pick.0, pick.1, e0));
                assert(exists|kk: int| 0 <= kk < queue@.len() && #[trigger] queue@[kk] == e0);
            }
        }
        let mut budget: usize = EVENT_BUDGET;
        while queue.len() > 0 && budget > 0
            invariant
                sim_wf(*self),
                budget <= EVENT_BUDGET,
                te == self.time_elapsed,
                te_i == te as int,
                bp.entries@.len() == self.objects@.len(),
                forall|c: int| 0 <= c < bp.entries@.len() ==> (#[trigger] bp.entries@[c]).index
                    == c,
                self.objects@.len() == old(self).objects@.len(),
                forall|k: int| 0 <= k < queue@.len() ==> valid_queued(
                    #[trigger] queue@[k],
                    self.objects@,
                    te_i,
                ),
                forall|i2: int| 0 <= i2 < old(self).objects@.len() ==> (#[trigger] old(
                    self,
                ).objects@[i2]).updated + 2 * EVENT_BUDGET + 2 < usize::MAX && old(
                    self,
                ).objects@[i2].collided + EVENT_BUDGET < usize::MAX,
                forall|i2: int| 0 <= i2 < old(self).objects@.len() ==> ({
                    let o = #[trigger] self.objects@[i2];
                    let p = old(self).objects@[i2];
                    &&& o.shape == p.shape
                    &&& o.mass == p.mass
                    &&& o.rotation == p.rotation
                    &&& o.rot_velocity == p.rot_velocity
                    &&& o.acceleration == p.acceleration
                    &&& o.cur_time >= p.cur_time
                    &&& (o.cur_time as int <= p.cur_time as int || o.cur_time as int
                        <= te as int)
                    &&& p.updated <= o.updated
                    &&& o.updated <= p.updated + (EVENT_BUDGET - budget)
                    &&& p.collided <= o.collided
                    &&& o.collided <= p.collided + (EVENT_BUDGET - budget)
                }),
                forall|i2: int|
                    0 <= i2 < old(self).objects@.len() && (#[trigger] self.objects@[i2]).updated
                        == old(self).objects@[i2].updated ==> self.objects@[i2] == old(
                        self,
                    ).objects@[i2],
                self.objects@ == old(self).objects@ || exists|i2: int|
                    0 <= i2 < old(self).objects@.len() && (#[trigger] self.objects@[i2]).collided
                        > old(self).objects@[i2].collided,
                self.objects@ == old(self).objects@ ==> budget == EVENT_BUDGET,
                hyp ==> uc_must_resolve(old(self).objects@, te_i, pick.0, pick.1) && cc_valid(
                    old(self).objects@,
                    te_i,
                    pick.0,
                    pick.1,
                    e0,
                ),
                hyp && self.objects@ == old(self).objects@ ==> exists|kk: int|
                    0 <= kk < queue@.len() && #[trigger] queue@[kk] == e0,
                self.camera == old(self).camera,
                self.middle_clicked == old(self).middle_clicked,
                self.cursor_position == old(self).cursor_position,
                self.last_cursor_position == old(self).last_cursor_position,
                self.right_clicked == old(self).right_clicked,
                self.time_elapsed == old(self).time_elapsed,
                self.frame_rate == old(self).frame_rate,
                self.frame == old(self).frame,
                old(self).debug_points@.is_prefix_of(self.debug_points@),
            decreases budget, queue@.len(),
        {
            let ghost objs0 = self.objects@;
            let ghost dbg0 = self.debug_points@;
            let ghost q_before = queue@;
            let e = pop_min(&mut queue);
            proof {
                let kw = choose|k: int| 0 <= k < q_before.len() && q_before[k] == e;
                assert(valid_queued(q_before[kw], self.objects@, te_i));
                assert forall|k: int| 0 <= k < queue@.len() implies valid_queued(
                    #[trigger] queue@[k],
                    self.objects@,
                    te_i,
                ) by {
                    let kq = choose|k2: int| 0 <= k2 < q_before.len() && q_before[k2]
                        == queue@[k];
                    assert(valid_queued(q_before[kq], self.objects@, te_i));
                }
                if hyp && objs0 == old(self).objects@ && e != e0 {
                    let m = choose|m: int|
                        0 <= m < q_before.len() && q_before[m] == e && queue@ == q_before.remove(
                            m,
                        );
                    let kk = choose|kk: int| 0 <= kk < q_before.len() && #[trigger] q_before[kk]
                        == e0;
                    assert(kk != m);
                    if kk < m {
                        assert(queue@[kk] == e0);
                    } else {
                        assert(queue@[kk - 1] == e0);
                    }
                }
            }
            let resolved = self.handle_collision(e);
            if resolved {
                proof {
                    let o1 = e.object_1 as int;
                    let o2 = e.object_2 as int;
                    assert forall|k: int| 0 <= k < queue@.len() implies valid_queued(
                        #[trigger] queue@[k],
                        self.objects@,
                        te_i,
                    ) by {
                        let q = queue@[k];
                        assert(valid_queued(q, objs0, te_i));
                        if q.object_1 as int != o1 && q.object_1 as int != o2 {
                            assert(self.objects@[q.object_1 as int] == objs0[q.object_1 as int]);
                        }
                        if q.object_2 as int != o1 && q.object_2 as int != o2 {
                            assert(self.objects@[q.object_2 as int] == objs0[q.object_2 as int]);
                        }
                    }
                    assert(dbg0.is_prefix_of(self.debug_points@));
                    assert(self.objects@[o1].collided > old(self).objects@[o1].collided);
                    assert(self.objects@ != old(self).objects@);
                }
                self.reseed(&mut bp, &mut queue, e.object_1);
                self.reseed(&mut bp, &mut queue, e.object_2);
                budget = budget - 1;
            } else {
                proof {
                    if hyp && objs0 == old(self).objects@ && e == e0 {
                        assert(hc_stamps_match(e0, objs0));
                        assert(cc_hit(
                            objs0[pick.0],
                            objs0[pick.1],
                            te_i,
                            e0.point_1 as int,
                            e0.line_2 as int,
                        ) is Some);
                        assert(hc_len(objs0[pick.1], e0.line_2 as int) != 0);
                        assert(hc_applies(e0, objs0));
                        assert(false);
                    }
                }
            }
        }
        proof {
            if hyp && self.objects@ == old(self).objects@ {
                assert(exists|kk: int| 0 <= kk < queue@.len() && #[trigger] queue@[kk] == e0);
                assert(queue@.len() > 0);
                assert(budget == EVENT_BUDGET);
                assert(false);
            }
        }
    }

    /// The frame boundary pass over the registry: drop bodies past the
    /// collision limit, integrate the survivors to exactly the frame
    /// clock, and honor a pending spawn request (the host supplies the
    /// requested velocity, rotation and shape; the click position comes
    /// from the stored cursor through the camera).
    pub fn update_objects(
        &mut self,
        dt: i64,
        spawn_velocity: Vec2,
        spawn_rotation: Rot,
        spawn_shape: Vec<Vec2>,
    )
        requires
            sim_wf(*old(self)),
            v2_wf(spawn_velocity),
            rot_wf(spawn_rotation),
            pts_wf(spawn_shape@),
            spawn_shape@.len() >= 1,
            forall|i: int| 0 <= i < old(self).objects@.len() ==> (#[trigger] old(
                self,
            ).objects@[i]).cur_time <= old(self).time_elapsed,
            forall|i: int| 0 <= i < old(self).objects@.len() ==> (#[trigger] old(
                self,
            ).objects@[i]).updated < usize::MAX,
        ensures
            final(self).objects@ == ({
                let base = advanced_all(
                    kept_bodies(old(self).objects@),
                    old(self).time_elapsed as int,
                );
                if old(self).right_clicked {
                    base.push(
                        spawned_obj(
                            old(self).camera,
                            old(self).cursor_position,
                            old(self).time_elapsed,
                            spawn_velocity,
                            spawn_rotation,
                            spawn_shape,
                        ),
                    )
                } else {
                    base
                }
            }),
            final(self).camera == old(self).camera,
            final(self).middle_clicked == old(self).middle_clicked,
            final(self).cursor_position == old(self).cursor_position,
            final(self).last_cursor_position == old(self).last_cursor_position,
            final(self).right_clicked == old(self).right_clicked,
            final(self).time_elapsed == old(self).time_elapsed,
            final(self).frame_rate == old(self).frame_rate,
            final(self).frame == old(self).frame,
            final(self).debug_points == old(self).debug_points,
            sim_wf(*final(self)),
            forall|i: int| 0 <= i < final(self).objects@.len()
                ==> (#[trigger] final(self).objects@[i]).cur_time == old(self).time_elapsed
                && final(self).objects@[i].collided <= COLLISION_LIMIT,
    {
        let target = self.time_elapsed;
        let mut pending: Vec<Object> = Vec::new();
        core::mem::swap(&mut pending, &mut self.objects);
        let ghost s0 = pending@;
        let ghost tgt = target as int;
        let ghost mut k: int = 0;
        while pending.len() > 0
            invariant
                0 <= k <= s0.len(),
                pending@ == s0.subrange(k, s0.len() as int),
                self.objects@ == advanced_all(kept_bodies(s0.take(k)), tgt),
                tgt == old(self).time_elapsed as int,
                0 <= tgt,
                fx_wf(target),
                target as int == tgt,
                objs_wf(s0),
                forall|i: int| 0 <= i < s0.len() ==> (#[trigger] s0[i]).cur_time as int <= tgt,
                forall|i: int| 0 <= i < s0.len() ==> (#[trigger] s0[i]).updated < usize::MAX,
                objs_wf(self.objects@),
                forall|i: int| 0 <= i < self.objects@.len() ==> (#[trigger] self.objects@[i]).cur_time as int == tgt && self.objects@[i].collided <= COLLISION_LIMIT,
                self.camera == old(self).camera,
                self.middle_clicked == old(self).middle_clicked,
                self.cursor_position == old(self).cursor_position,
                self.last_cursor_position == old(self).last_cursor_position,
                self.right_clicked == old(self).right_clicked,
                self.time_elapsed == old(self).time_elapsed,
                self.frame_rate == old(self).frame_rate,
                self.frame == old(self).frame,
                self.debug_points == old(self).debug_points,
                sim_wf(*old(self)),
            decreases pending@.len(),
        {
            let mut o = pending.remove(0);
            proof {
                assert(o == s0[k]);
                assert(s0.take(k + 1).drop_last() =~= s0.take(k));
                assert(s0.take(k + 1).last() == s0[k]);
                assert(pending@ =~= s0.subrange(k + 1, s0.len() as int));
            }
            if o.collided <= COLLISION_LIMIT {
                o.update(target);
                proof {
                    assert(o.cur_time as int == tgt);
                }
                self.objects.push(o);
                proof {
                    assert(kept_bodies(s0.take(k + 1)) == kept_bodies(s0.take(k)).push(s0[k]));
                    assert(self.objects@ =~= advanced_all(kept_bodies(s0.take(k + 1)), tgt));
                }
            } else {
                proof {
                    assert(kept_bodies(s0.take(k + 1)) == kept_bodies(s0.take(k)));
                }
            }
            proof {
                k = k + 1;
            }
        }
        proof {
            assert(s0.take(s0.len() as int) =~= s0);
        }
        if self.right_clicked {
            let pos = self.camera.screen_to_world(self.cursor_position);
            let mut ob = Object::new(pos, spawn_velocity, spawn_rotation, spawn_shape);
            ob.cur_time = self.time_elapsed;
            proof {
                assert(ob == spawned_obj(
                    old(self).camera,
                    old(self).cursor_position,
                    old(self).time_elapsed,
                    spawn_velocity,
                    spawn_rotation,
                    spawn_shape,
                ));
            }
            self.objects.push(ob);
        }
    }

    /// One whole frame: pan the camera, roll the clock forward by `dt`,
    /// run the collision pass to quiescence (or budget), then the frame
    /// boundary pass, after which every surviving body sits exactly at
    /// the frame clock and none is past the collision limit.
    pub fn update(
        &mut self,
        dt: i64,
        spawn_velocity: Vec2,
        spawn_rotation: Rot,
        spawn_shape: Vec<Vec2>,
    )
        requires
            sim_wf(*old(self)),
            0 < dt,
            fx_wf(dt),
            old(self).frame < usize::MAX,
            v2_wf(spawn_velocity),
            rot_wf(spawn_rotation),
            pts_wf(spawn_shape@),
            spawn_shape@.len() >= 1,
            forall|i: int| 0 <= i < old(self).objects@.len() ==> (#[trigger] old(
                self,
            ).objects@[i]).cur_time <= old(self).time_elapsed,
            forall|i: int| 0 <= i < old(self).objects@.len() ==> (#[trigger] old(
                self,
            ).objects@[i]).updated + 2 * EVENT_BUDGET + 2 < usize::MAX && old(
                self,
            ).objects@[i].collided + EVENT_BUDGET < usize::MAX,
        ensures
            sim_wf(*final(self)),
            final(self).time_elapsed as int == s_add(old(self).time_elapsed as int, dt as int),
            final(self).frame == old(self).frame + 1,
            final(self).frame_rate as int == (SCALE as int) / (dt as int),
            final(self).last_cursor_position == old(self).cursor_position,
            final(self).cursor_position == old(self).cursor_position,
            final(self).middle_clicked == old(self).middle_clicked,
            final(self).right_clicked == old(self).right_clicked,
            final(self).camera.scale == old(self).camera.scale,
            !old(self).middle_clicked ==> final(self).camera == old(self).camera,
            old(self).middle_clicked ==> final(self).camera.translation.x as int == s_add(
                old(self).camera.translation.x as int,
                s_div(
                    s_sub(
                        old(self).cursor_position.x as int,
                        old(self).last_cursor_position.x as int,
                    ),
                    old(self).camera.scale as int,
                ),
            ) && final(self).camera.translation.y as int == s_add(
                old(self).camera.translation.y as int,
                s_div(
                    s_sub(
                        old(self).cursor_position.y as int,
                        old(self).last_cursor_position.y as int,
                    ),
                    old(self).camera.scale as int,
                ),
            ),
            final(self).objects@.len() <= old(self).objects@.len() + 1,
            forall|i: int| 0 <= i < final(self).objects@.len()
                ==> (#[trigger] final(self).objects@[i]).cur_time == final(self).time_elapsed
                && final(self).objects@[i].collided <= COLLISION_LIMIT,
            old(self).right_clicked ==> final(self).objects@.len() >= 1
                && final(self).objects@.last() == spawned_obj(
                final(self).camera,
                old(self).cursor_position,
                final(self).time_elapsed,
                spawn_velocity,
                spawn_rotation,
                spawn_shape,
            ),
    {
        self.update_camera();
        self.last_cursor_position = self.cursor_position;
        let fr = (SCALE as u64) / (dt as u64);
        self.frame_rate = fr as usize;
        self.time_elapsed = fx_add(self.time_elapsed, dt);
        self.frame = self.frame + 1;
        let ghost te1 = self.time_elapsed as int;
        proof {
            assert forall|i: int| 0 <= i < self.objects@.len() implies (
            #[trigger] self.objects@[i]).cur_time as int <= te1 by {
                assert(self.objects@[i].cur_time <= old(self).time_elapsed);
            }
        }
        self.update_collisions(dt);
        proof {
            assert forall|i: int| 0 <= i < self.objects@.len() implies (
            #[trigger] self.objects@[i]).cur_time as int <= te1 by {
                let c = self.objects@[i].cur_time as int;
                if c <= old(self).objects@[i].cur_time as int {
                    assert(old(self).objects@[i].cur_time <= old(self).time_elapsed);
                } else {
                    assert(c <= te1);
                }
            }
        }
        let ghost mid = *self;
        self.update_objects(dt, spawn_velocity, spawn_rotation, spawn_shape);
        proof {
            lemma_kept_len(mid.objects@);
            assert(kept_bodies(mid.objects@).len() <= old(self).objects@.len());
        }
    }
}

/// Garbage collection never grows the registry.
pub proof fn lemma_kept_len(s: Seq<Object>)
    ensures
        kept_bodies(s).len() <= s.len(),
    decreases s.len(),
{
    if s.len() > 0 {
        lemma_kept_len(s.drop_last());
    }
}

/// A body surviving this many resolved collisions is presumed stuck in a
/// numerically unstable cluster and is dropped at the frame boundary.
pub const COLLISION_LIMIT: usize = 100;

/// The bodies that survive garbage collection, in order.
pub open spec fn kept_bodies(s: Seq<Object>) -> Seq<Object>
    decreases s.len(),
{
    if s.len() == 0 {
        Seq::empty()
    } else {
        let pre = kept_bodies(s.drop_last());
        if s.last().collided <= COLLISION_LIMIT {
            pre.push(s.last())
        } else {
            pre
        }
    }
}

/// Every body advanced to the absolute time `t`.
pub open spec fn advanced_all(s: Seq<Object>, t: int) -> Seq<Object> {
    s.map_values(|o: Object| obj_advanced(o, t))
}

/// The body a spawn request constructs: unit mass, the click position
/// mapped through the camera into world space, the requested velocity,
/// rotation and shape, alive as of the present frame clock.
pub open spec fn spawned_obj(
    cam: Camera,
    cursor: Vec2,
    te: i64,
    vel: Vec2,
    rot: Rot,
    shape: Vec<Vec2>,
) -> Object {
    Object {
        mass: SCALE,
        position: Vec2 {
            x: s_div(s_sub(cursor.x as int, cam.translation.x as int), cam.scale as int) as i64,
            y: s_div(s_sub(cursor.y as int, cam.translation.y as int), cam.scale as int) as i64,
        },
        velocity: vel,
        acceleration: Vec2 { x: 0, y: 0 },
        rotation: rot,
        rot_velocity: 0,
        shape,
        cur_time: te,
        updated: 0,
        collided: 0,
    }
}

/// A body's kinetic energy `1/2 * mass * |velocity|^2` in fixed point.
pub open spec fn obj_energy(o: Object) -> int {
    s_mul(s_mul(HALF as int, o.mass as int), s_dot(o.velocity, o.velocity))
}

/// Kinetic energy summed over a body registry.
pub open spec fn energy_sum(s: Seq<Object>) -> int
    decreases s.len(),
{
    if s.len() == 0 {
        0
    } else {
        s_add(energy_sum(s.drop_last()), obj_energy(s.last()))
    }
}

} // verus!
