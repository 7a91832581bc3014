//! Viewport: the mapping between virtual (sketch) and actual (screen)
//! coordinates, and the events that change it.
//!
//! The core treats the camera as an opaque pair of coordinate maps; here
//! it is an exact integer translation, so that the round trip between
//! the two spaces is the identity and every transformed coordinate stays
//! within twice the workspace bound.

use vstd::prelude::*;

use crate::geom::{clamp_coord, dir_coord_ok, in_workspace, Vector2, COORD_LIMIT};

verus! {

/// A change of the camera, fed to [`Viewport::apply_event`].
pub enum ViewportEvent {
    /// Pan by the given offset (virtual units).
    Move(Vector2),
    /// The window was resized to the given extent.
    Resize(Vector2),
}

/// The camera: a pan offset and the window size, both bounded by the
/// workspace.
#[derive(Clone, Copy, PartialEq, Eq, Structural, Debug)]
pub struct Viewport {
    pub pan: Vector2,
    pub size: Vector2,
}

/// Clamp a coordinate into the workspace range.
pub fn clamp_i64(c: i64) -> (r: i64)
    ensures
        r as int == clamp_coord(c as int),
{
    if c < -COORD_LIMIT {
        -COORD_LIMIT
    } else if c > COORD_LIMIT {
        COORD_LIMIT
    } else {
        c
    }
}

impl Viewport {
    /// The camera's own coordinates stay inside the workspace.
    pub open spec fn vp_ok(self) -> bool {
        in_workspace(self.pan) && in_workspace(self.size)
    }

    /// A camera at the origin with the given window size.
    pub fn new(size: Vector2) -> (r: Viewport)
        requires
            in_workspace(size),
        ensures
            r.vp_ok(),
            r.pan == (Vector2 { x: 0i64, y: 0i64 }),
            r.size == size,
    {
        Viewport { pan: Vector2 { x: 0, y: 0 }, size }
    }

    /// Where a virtual point lands on screen.
    pub open spec fn to_actual_spec(self, v: Vector2) -> Vector2 {
        Vector2 { x: (v.x + self.pan.x) as i64, y: (v.y + self.pan.y) as i64 }
    }

    /// The virtual point behind a screen position, clamped into the
    /// workspace.
    pub open spec fn to_virtual_spec(self, a: Vector2) -> Vector2 {
        Vector2 {
            x: clamp_coord(a.x - self.pan.x) as i64,
            y: clamp_coord(a.y - self.pan.y) as i64,
        }
    }

    /// Map a virtual point to screen space.
    pub fn to_actual(&self, v: Vector2) -> (r: Vector2)
        requires
            self.vp_ok(),
            in_workspace(v),
        ensures
            r == self.to_actual_spec(v),
            dir_coord_ok(r.x as int),
            dir_coord_ok(r.y as int),
    {
        Vector2 { x: v.x + self.pan.x, y: v.y + self.pan.y }
    }

    /// Map a screen position back to a virtual point, clamped into the
    /// workspace.
    pub fn to_virtual(&self, a: Vector2) -> (r: Vector2)
        requires
            self.vp_ok(),
            dir_coord_ok(a.x as int),
            dir_coord_ok(a.y as int),
        ensures
            r == self.to_virtual_spec(a),
            in_workspace(r),
    {
        Vector2 { x: clamp_i64(a.x - self.pan.x), y: clamp_i64(a.y - self.pan.y) }
    }

    /// The round trip through screen space is the identity on the
    /// workspace.
    pub proof fn lemma_round_trip(self, v: Vector2)
        requires
            self.vp_ok(),
            in_workspace(v),
        ensures
            self.to_virtual_spec(self.to_actual_spec(v)) == v,
    {
    }

    /// Fold a camera event in: panning moves the offset (clamped into
    /// the workspace), resizing replaces the window size (clamped
    /// likewise); nothing else changes.
    pub fn apply_event(&mut self, e: &ViewportEvent)
        requires
            old(self).vp_ok(),
        ensures
            final(self).vp_ok(),
            match *e {
                ViewportEvent::Move(d) => final(self).pan == (Vector2 {
                    x: clamp_coord(old(self).pan.x + d.x) as i64,
                    y: clamp_coord(old(self).pan.y + d.y) as i64,
                }) && final(self).size == old(self).size,
                ViewportEvent::Resize(s) => final(self).size == (Vector2 {
                    x: clamp_coord(s.x as int) as i64,
                    y: clamp_coord(s.y as int) as i64,
                }) && final(self).pan == old(self).pan,
            },
    {
        match e {
            ViewportEvent::Move(d) => {
                let sx: i128 = self.pan.x as i128 + d.x as i128;
                let sy: i128 = self.pan.y as i128 + d.y as i128;
                let lim: i128 = COORD_LIMIT as i128;
                let nx: i64 = if sx < -lim {
                    -COORD_LIMIT
                } else if sx > lim {
                    COORD_LIMIT
                } else {
                    sx as i64
                };
                let ny: i64 = if sy < -lim {
                    -COORD_LIMIT
                } else if sy > lim {
                    COORD_LIMIT
                } else {
                    sy as i64
                };
                self.pan = Vector2 { x: nx, y: ny };
            },
            ViewportEvent::Resize(s) => {
                self.size = Vector2 { x: clamp_i64(s.x), y: clamp_i64(s.y) };
            },
        }
    }
}

} // verus!
