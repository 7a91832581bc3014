//! Interaction decisions: the pure state transitions behind the tool
//! keys, the pending-line workflow, selection clicks and point drags.
//!
//! The event pump, windowing and rendering stay outside the core; they
//! hand these functions plain keys, cursor positions and hit results,
//! and carry out the returned decisions.

use vstd::prelude::*;

use crate::geom::{closest_parameter, dir_coord_ok, line_parameter, Vector2};
use crate::graph::contains_u64;
use crate::viewport::Viewport;

verus! {

/// The keys the tool layer reacts to.
#[derive(Clone, Copy, PartialEq, Eq, Structural, Debug)]
pub enum Key {
    KeyS,
    KeyP,
    KeyL,
    KeyC,
    Escape,
    Other,
}

/// The active editing tool.
#[derive(Clone, Copy, PartialEq, Eq, Structural, Debug)]
pub enum Tool {
    Select,
    Point,
    Line,
    Circle,
}

/// The tool a key press switches to, if any: `S` selects, `P` places
/// points, `L` draws lines, `C` draws circles.
pub fn tool_for_key(k: Key) -> (r: Option<Tool>)
    ensures
        r == match k {
            Key::KeyS => Some(Tool::Select),
            Key::KeyP => Some(Tool::Point),
            Key::KeyL => Some(Tool::Line),
            Key::KeyC => Some(Tool::Circle),
            _ => None::<Tool>,
        },
{
    match k {
        Key::KeyS => Some(Tool::Select),
        Key::KeyP => Some(Tool::Point),
        Key::KeyL => Some(Tool::Line),
        Key::KeyC => Some(Tool::Circle),
        _ => None,
    }
}

/// The in-progress line construction: the first endpoint already
/// placed, if any.
#[derive(Clone, Copy, PartialEq, Eq, Structural, Debug)]
pub struct CreateLineData {
    pub maybe_first_point: Option<u64>,
}

impl CreateLineData {
    /// No line construction in progress.
    pub fn new() -> (r: CreateLineData)
        ensures
            r.maybe_first_point is None,
    {
        CreateLineData { maybe_first_point: None }
    }

    /// Pressing escape abandons the pending first endpoint; any other
    /// key leaves the construction as it stands.
    pub fn on_key(&mut self, k: Key)
        ensures
            final(self).maybe_first_point == (if k == Key::Escape {
                None::<u64>
            } else {
                old(self).maybe_first_point
            }),
    {
        if let Key::Escape = k {
            self.maybe_first_point = None;
        }
    }
}

/// The per-frame recompute flags: raw input arrived, and the geometry
/// or topology changed so the solver must run.
#[derive(Clone, Copy, PartialEq, Eq, Structural, Debug)]
pub struct DirtyFlags {
    pub input_dirty: bool,
    pub solver_dirty: bool,
}

impl DirtyFlags {
    /// A fresh frame: nothing dirty yet.
    pub fn new() -> (r: DirtyFlags)
        ensures
            !r.input_dirty,
            !r.solver_dirty,
    {
        DirtyFlags { input_dirty: false, solver_dirty: false }
    }

    /// Raw interaction occurred this frame.
    pub fn mark_input(&mut self)
        ensures
            final(self).input_dirty,
            final(self).solver_dirty == old(self).solver_dirty,
    {
        self.input_dirty = true;
    }

    /// Structure or a position changed: the solver must run.
    pub fn mark_solver(&mut self)
        ensures
            final(self).solver_dirty,
            final(self).input_dirty == old(self).input_dirty,
    {
        self.solver_dirty = true;
    }

    /// The solver consumed its flag at the end of the pass.
    pub fn clear_solver(&mut self)
        ensures
            !final(self).solver_dirty,
            final(self).input_dirty == old(self).input_dirty,
    {
        self.solver_dirty = false;
    }

    /// Frame end: both flags are cleared.
    pub fn clear(&mut self)
        ensures
            !final(self).input_dirty,
            !final(self).solver_dirty,
    {
        self.input_dirty = false;
        self.solver_dirty = false;
    }
}

/// Fold a click's hit result into the selection: a hit object is
/// toggled in or out, a miss clears the whole selection.
pub fn update_selection(selected: &mut Vec<u64>, hit: Option<u64>)
    requires
        old(selected)@.no_duplicates(),
    ensures
        final(selected)@.no_duplicates(),
        match hit {
            Some(h) => forall|x: u64|
                #[trigger] final(selected)@.contains(x) <==> (old(selected)@.contains(x) && x != h)
                    || (x == h && !old(selected)@.contains(h)),
            None => final(selected)@.len() == 0,
        },
{
    match hit {
        Some(h) => {
            let ghost s0 = selected@;
            if contains_u64(selected, h) {
                let n = selected.len();
                let mut kept: Vec<u64> = Vec::new();
                for i in 0..n
                    invariant
                        n == s0.len(),
                        selected@ == s0,
                        s0.no_duplicates(),
                        kept@.no_duplicates(),
                        forall|x: u64|
                            #[trigger] kept@.contains(x) <==> (exists|k: int|
                                0 <= k < i && s0[k] == x && x != h),
                {
                    let x = selected[i];
                    if x != h {
                        let ghost k0 = kept@;
                        proof {
                            if k0.contains(x) {
                                let k = choose|k: int| 0 <= k < i && s0[k] == x && x != h;
                                assert(s0[k] == s0[i as int]);
                            }
                        }
                        kept.push(x);
                        proof {
                            crate::graph::lemma_push_contains_iff(k0, x);
                            crate::graph::lemma_push_no_dup(k0, x);
                            assert forall|y: u64| #[trigger] kept@.contains(y) implies (exists|
                                k: int,
                            |
                                0 <= k < i + 1 && s0[k] == y && y != h) by {
                                if y == x {
                                    assert(s0[i as int] == y);
                                } else {
                                    assert(k0.contains(y));
                                }
                            }
                        }
                    } else {
                        proof {
                            assert forall|y: u64| #[trigger] kept@.contains(y) implies (exists|
                                k: int,
                            |
                                0 <= k < i + 1 && s0[k] == y && y != h) by {}
                        }
                    }
                }
                *selected = kept;
                proof {
                    assert forall|x: u64|
                        #[trigger] selected@.contains(x) <==> ((s0.contains(x) && x != h) || (x == h
                            && !s0.contains(h))) by {
                        if s0.contains(x) && x != h {
                            let k = choose|k: int| 0 <= k < s0.len() && s0[k] == x;
                        }
                    }
                }
            } else {
                let ghost k0 = selected@;
                selected.push(h);
                proof {
                    crate::graph::lemma_push_contains_iff(k0, h);
                    crate::graph::lemma_push_no_dup(k0, h);
                }
            }
        },
        None => {
            *selected = Vec::new();
        },
    }
}

/// What a drag step does to the dragged point.
#[derive(Clone, Copy, PartialEq, Eq, Structural, Debug)]
pub enum DragAction {
    /// Move a free point to the given virtual position.
    MoveFree(Vector2),
    /// Re-seat an on-line point at the given parameter.
    MoveOnLine(i64),
    /// The dragged point cannot follow the cursor (its line is absent).
    NoMove,
}

/// Decide what dragging a free point to the screen position `cursor`
/// does: the point follows the cursor, clamped into the workspace.
pub fn drag_free_point(viewport: &Viewport, cursor: Vector2) -> (r: DragAction)
    requires
        viewport.vp_ok(),
        dir_coord_ok(cursor.x as int),
        dir_coord_ok(cursor.y as int),
    ensures
        r == DragAction::MoveFree(viewport.to_virtual_spec(cursor)),
{
    DragAction::MoveFree(viewport.to_virtual(cursor))
}

/// Decide what dragging an on-line point to the screen position
/// `cursor` does: the point slides to the closest parameter on its
/// line, or stays put when the line has no resolved geometry.
pub fn drag_on_line_point(
    viewport: &Viewport,
    cursor: Vector2,
    line_geometry: Option<(Vector2, Vector2)>,
) -> (r: DragAction)
    requires
        viewport.vp_ok(),
        dir_coord_ok(cursor.x as int),
        dir_coord_ok(cursor.y as int),
        line_geometry matches Some(od) ==> crate::geom::in_workspace(od.0) && dir_coord_ok(
            od.1.x as int,
        ) && dir_coord_ok(od.1.y as int) && !(od.1.x == 0 && od.1.y == 0),
    ensures
        r == match line_geometry {
            Some(od) => DragAction::MoveOnLine(
                line_parameter(viewport.to_virtual_spec(cursor), od.0, od.1) as i64,
            ),
            None => DragAction::NoMove,
        },
{
    match line_geometry {
        Some((o, d)) => {
            let virt = viewport.to_virtual(cursor);
            let t = closest_parameter(virt, o, d);
            DragAction::MoveOnLine(t)
        },
        None => DragAction::NoMove,
    }
}

} // verus!
