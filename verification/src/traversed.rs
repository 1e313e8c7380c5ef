//! The swept volume of a moving body: the convex hull of its vertices at
//! the current pose together with its vertices at a future pose.

use vstd::prelude::*;
use crate::fixed::{fx_wf, s_add, s_mul, fx_sub};
use crate::geometry::{Vec2, Rot, v2_wf, pts_wf, cross3, convex_hull};
use crate::object::{Object, obj_wf, obj_dt, world_x, world_y};

verus! {

/// The world-space image of a local point under a pose.
pub open spec fn world_pt(p: Vec2, rot: Rot, pos: Vec2) -> Vec2 {
    Vec2 { x: world_x(p, rot, pos) as i64, y: world_y(p, rot, pos) as i64 }
}

/// The world-space image of a whole shape under a pose.
pub open spec fn world_seq(shape: Seq<Vec2>, rot: Rot, pos: Vec2) -> Seq<Vec2> {
    Seq::new(shape.len(), |i: int| world_pt(shape[i], rot, pos))
}

/// Where a body's position will be at `target` if it just coasts there.
pub open spec fn future_pos(o: Object, target: int) -> Vec2 {
    Vec2 {
        x: s_add(o.position.x as int, s_mul(o.velocity.x as int, obj_dt(o, target))) as i64,
        y: s_add(o.position.y as int, s_mul(o.velocity.y as int, obj_dt(o, target))) as i64,
    }
}

/// The vertex set a swept volume is the hull of: the body's world points
/// now, followed by its world points at the future pose.
pub open spec fn swept_inputs(o: Object, target: int) -> Seq<Vec2> {
    world_seq(o.shape@, o.rotation, o.position) + world_seq(
        o.shape@,
        o.rotation,
        future_pos(o, target),
    )
}

/// The region a body sweeps through on its way to a future time, bounded
/// by the convex hull of its current and future vertices.
pub struct TraversedVolume {
    pub points: Vec<Vec2>,
}

impl TraversedVolume {
    /// Hull of the body's vertices at its current pose united with its
    /// vertices after coasting to `target_time`. The body itself is not
    /// touched; hulling a pose in the body's past would be a scheduling
    /// bug and is excluded by contract.
    pub fn from_object(object: &Object, target_time: i64) -> (tv: TraversedVolume)
        requires
            obj_wf(*object),
            object.shape@.len() >= 1,
            fx_wf(target_time),
            target_time >= object.cur_time,
        ensures
            tv.points@.len() >= 1,
            forall|i: int| 0 <= i < tv.points@.len() ==> swept_inputs(
                *object,
                target_time as int,
            ).contains(#[trigger] tv.points@[i]),
            forall|i: int| 0 <= i && i + 2 < tv.points@.len() ==> #[trigger] cross3(
                tv.points@[i],
                tv.points@[i + 1],
                tv.points@[i + 2],
            ) > 0,
            forall|q: int, e: int|
                0 <= q < swept_inputs(*object, target_time as int).len() && 0 <= e
                    < tv.points@.len() ==> #[trigger] cross3(
                    tv.points@[e],
                    tv.points@[(e + 1) % (tv.points@.len() as int)],
                    swept_inputs(*object, target_time as int)[q],
                ) >= 0,
            pts_wf(tv.points@),
    {
        let dt = fx_sub(target_time, object.cur_time);
        let fut = object.position.plus(object.velocity.scale(dt));
        let cur_pts = object.world_points_at(object.position);
        let fut_pts = object.world_points_at(fut);
        let mut combined = cur_pts;
        let mut i: usize = 0;
        while i < fut_pts.len()
            invariant
                i <= fut_pts@.len(),
                combined@ == cur_pts@ + fut_pts@.subrange(0, i as int),
            decreases fut_pts@.len() - i,
        {
            combined.push(fut_pts[i]);
            proof {
                assert(fut_pts@.subrange(0, i + 1) == fut_pts@.subrange(0, i as int).push(
                    fut_pts@[i as int],
                ));
                assert(combined@ == cur_pts@ + fut_pts@.subrange(0, i + 1));
            }
            i = i + 1;
        }
        proof {
            assert(fut_pts@.subrange(0, fut_pts@.len() as int) == fut_pts@);
            assert(combined@ == cur_pts@ + fut_pts@);
            assert(combined@ =~= swept_inputs(*object, target_time as int));
        }
        let points = convex_hull(combined);
        TraversedVolume { points }
    }
}

} // verus!
