//! The view transform: a uniform zoom about the origin followed by a pan.
//! The engine itself only needs the inverse map, from screen coordinates
//! to world coordinates (spawn clicks arrive in screen space).

use vstd::prelude::*;
use crate::fixed::{SCALE, fx_wf, s_sub, s_mul, s_div, fx_sub, fx_mul, fx_div};
use crate::geometry::{Vec2, v2_wf};

verus! {

/// A camera: world points are scaled by `scale` and then shifted by
/// `translation` to reach screen space.
#[derive(Clone, Copy, PartialEq, Eq, Structural, Debug)]
pub struct Camera {
    pub translation: Vec2,
    pub scale: i64,
}

/// Well-formed camera: components representable, zoom non-zero.
pub open spec fn cam_wf(c: Camera) -> bool {
    v2_wf(c.translation) && fx_wf(c.scale) && c.scale != 0
}

impl Default for Camera {
    /// The identity view: no pan, unit zoom.
    fn default() -> (c: Camera)
        ensures
            c.translation == (Vec2 { x: 0, y: 0 }),
            c.scale == SCALE,
            cam_wf(c),
    {
        Camera { translation: Vec2 { x: 0, y: 0 }, scale: SCALE }
    }
}

impl Camera {
    /// Zoom by the fixed-point `factor` (a mouse-wheel step), keeping the
    /// pan. A factor that would collapse the zoom to nothing is excluded:
    /// the inverse map would stop existing.
    pub fn inflate(&self, factor: i64) -> (c: Camera)
        requires
            cam_wf(*self),
            fx_wf(factor),
            s_mul(self.scale as int, factor as int) != 0,
        ensures
            c.translation == self.translation,
            c.scale as int == s_mul(self.scale as int, factor as int),
            cam_wf(c),
    {
        Camera { translation: self.translation, scale: fx_mul(self.scale, factor) }
    }

    /// Map a screen position back to world space: undo the pan, then the
    /// zoom, component-wise in fixed point.
    pub fn screen_to_world(&self, screen_pos: Vec2) -> (r: Vec2)
        requires
            cam_wf(*self),
            v2_wf(screen_pos),
        ensures
            r.x as int == s_div(
                s_sub(screen_pos.x as int, self.translation.x as int),
                self.scale as int,
            ),
            r.y as int == s_div(
                s_sub(screen_pos.y as int, self.translation.y as int),
                self.scale as int,
            ),
            v2_wf(r),
    {
        Vec2 {
            x: fx_div(fx_sub(screen_pos.x, self.translation.x), self.scale),
            y: fx_div(fx_sub(screen_pos.y, self.translation.y), self.scale),
        }
    }
}

} // verus!
