//! A rigid body: a convex shape with kinematic state and an explicit-Euler
//! integrator that advances it to an absolute target time.

use vstd::prelude::*;
use crate::fixed::{SCALE, FX_MAX, fx_wf, s_add, s_sub, s_mul, fx_add, fx_sub};
use crate::geometry::{Vec2, Rot, v2_wf, rot_wf, pts_wf, s_rot_x, s_rot_y};

verus! {

/// A simulated rigid body. All kinematic fields are valid exactly at
/// `cur_time`; `updated` counts every advance (used to detect stale
/// collision events) and `collided` counts resolved collisions.
#[derive(Clone, Debug)]
pub struct Object {
    pub mass: i64,
    pub position: Vec2,
    pub velocity: Vec2,
    pub acceleration: Vec2,
    pub rotation: Rot,
    pub rot_velocity: i64,
    pub shape: Vec<Vec2>,
    pub cur_time: i64,
    pub updated: usize,
    pub collided: usize,
}

/// Well-formedness: every stored quantity lies in the representable band,
/// the mass is strictly positive, and the body's clock never precedes the
/// simulation start.
pub open spec fn obj_wf(o: Object) -> bool {
    &&& 0 < o.mass <= FX_MAX as int
    &&& 0 <= o.cur_time
    &&& v2_wf(o.position)
    &&& v2_wf(o.velocity)
    &&& v2_wf(o.acceleration)
    &&& rot_wf(o.rotation)
    &&& fx_wf(o.rot_velocity)
    &&& pts_wf(o.shape@)
    &&& fx_wf(o.cur_time)
}

/// Every body of a registry is well-formed and has a non-empty shape.
pub open spec fn objs_wf(s: Seq<Object>) -> bool {
    forall|i: int| 0 <= i < s.len() ==> obj_wf(#[trigger] s[i]) && s[i].shape@.len() >= 1
}

/// The fixed-point time step a body takes to reach `target`.
pub open spec fn obj_dt(o: Object, target: int) -> int {
    s_sub(target, o.cur_time as int)
}

/// The world x coordinate of the local point `p` under rotation `rot` and
/// translation `pos`.
pub open spec fn world_x(p: Vec2, rot: Rot, pos: Vec2) -> int {
    s_add(s_rot_x(p, rot), pos.x as int)
}

/// The world y coordinate of the local point `p` under rotation `rot` and
/// translation `pos`.
pub open spec fn world_y(p: Vec2, rot: Rot, pos: Vec2) -> int {
    s_add(s_rot_y(p, rot), pos.y as int)
}

/// The exact state a body reaches when advanced to the absolute time
/// `target`: explicit Euler over `dt = target - cur_time`, stamp bumped.
pub open spec fn obj_advanced(o: Object, target: int) -> Object {
    Object {
        position: Vec2 {
            x: s_add(o.position.x as int, s_mul(o.velocity.x as int, obj_dt(o, target))) as i64,
            y: s_add(o.position.y as int, s_mul(o.velocity.y as int, obj_dt(o, target))) as i64,
        },
        velocity: Vec2 {
            x: s_add(o.velocity.x as int, s_mul(o.acceleration.x as int, obj_dt(o, target))) as i64,
            y: s_add(o.velocity.y as int, s_mul(o.acceleration.y as int, obj_dt(o, target))) as i64,
        },
        cur_time: s_add(o.cur_time as int, obj_dt(o, target)) as i64,
        updated: (o.updated + 1) as usize,
        ..o
    }
}

impl Object {
    /// A fresh unit-mass body at `cur_time` zero, not yet accelerating.
    pub fn new(position: Vec2, velocity: Vec2, rotation: Rot, shape: Vec<Vec2>) -> (o: Object)
        ensures
            o.mass == SCALE,
            o.position == position,
            o.velocity == velocity,
            o.acceleration == (Vec2 { x: 0, y: 0 }),
            o.rotation == rotation,
            o.rot_velocity == 0,
            o.shape == shape,
            o.cur_time == 0,
            o.updated == 0,
            o.collided == 0,
    {
        Object {
            mass: SCALE,
            position,
            velocity,
            acceleration: Vec2 { x: 0, y: 0 },
            rotation,
            rot_velocity: 0,
            shape,
            cur_time: 0,
            updated: 0,
            collided: 0,
        }
    }

    /// Advance the body to the absolute time `target_time`: the position
    /// gains `velocity * dt`, the velocity gains `acceleration * dt`, and
    /// the update stamp increments. Going backwards in time is a
    /// scheduling bug and is excluded by contract.
    pub fn update(&mut self, target_time: i64)
        requires
            obj_wf(*old(self)),
            fx_wf(target_time),
            target_time >= old(self).cur_time,
            old(self).updated < usize::MAX,
        ensures
            *final(self) == obj_advanced(*old(self), target_time as int),
            final(self).cur_time >= old(self).cur_time,
            final(self).updated == old(self).updated + 1,
            obj_wf(*final(self)),
    {
        let dt = fx_sub(target_time, self.cur_time);
        self.position = self.position.plus(self.velocity.scale(dt));
        self.velocity = self.velocity.plus(self.acceleration.scale(dt));
        self.cur_time = fx_add(self.cur_time, dt);
        self.updated = self.updated + 1;
    }

    /// The body's vertices in world space at pose `pos` (its stored
    /// rotation, an explicit translation).
    pub fn world_points_at(&self, pos: Vec2) -> (r: Vec<Vec2>)
        requires
            obj_wf(*self),
            v2_wf(pos),
        ensures
            r@.len() == self.shape@.len(),
            forall|i: int| 0 <= i < r@.len() ==> #[trigger] r@[i].x as int == world_x(
                self.shape@[i],
                self.rotation,
                pos,
            ) && r@[i].y as int == world_y(self.shape@[i], self.rotation, pos),
            pts_wf(r@),
    {
        let mut r: Vec<Vec2> = Vec::new();
        let mut i: usize = 0;
        while i < self.shape.len()
            invariant
                i <= self.shape@.len(),
                r@.len() == i,
                obj_wf(*self),
                v2_wf(pos),
                forall|j: int| 0 <= j < i ==> #[trigger] r@[j].x as int == world_x(
                    self.shape@[j],
                    self.rotation,
                    pos,
                ) && r@[j].y as int == world_y(self.shape@[j], self.rotation, pos),
                pts_wf(r@),
            decreases self.shape@.len() - i,
        {
            let w = self.shape[i].rotate(self.rotation).plus(pos);
            r.push(w);
            i = i + 1;
        }
        r
    }
}

} // verus!
