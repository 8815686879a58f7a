//! Pointer handling of the 3D viewport: a left drag orbits the camera, the
//! wheel zooms. The position type `P` is the caller's.

use vstd::prelude::*;

use crate::view2d::{MouseButton, PointerEvent};

verus! {

/// What the 3D viewport does with an event.
#[derive(Clone, Copy, Debug, PartialEq)]
pub enum OrbitAction<P> {
    /// Not handled; the event goes on to other widgets.
    Ignore,
    /// Handled, nothing to publish.
    Capture,
    /// Orbit by the cursor's move from `from` to `to`.
    OrbitBy { from: P, to: P },
    /// Zoom by the wheel.
    Zoom,
}

/// The drag state the 3D canvas keeps between events.
#[derive(Clone, Copy, Debug, PartialEq)]
pub struct InternalState<P> {
    pub dragging: bool,
    pub last_cursor: Option<P>,
}

/// The state and action after one event.
pub open spec fn orbit_step<P>(s: InternalState<P>, ev: PointerEvent<P>) -> (InternalState<P>, OrbitAction<P>) {
    match ev {
        PointerEvent::ButtonPressed(MouseButton::Left, Some(p)) => (
            InternalState { dragging: true, last_cursor: Some(p) },
            OrbitAction::Capture,
        ),
        PointerEvent::ButtonReleased(MouseButton::Left, _) => (
            InternalState { dragging: false, last_cursor: None },
            OrbitAction::Ignore,
        ),
        PointerEvent::CursorMoved(pos, _) => if s.dragging {
            match pos {
                Some(p) => (
                    InternalState { last_cursor: Some(p), ..s },
                    match s.last_cursor {
                        Some(prev) => OrbitAction::OrbitBy { from: prev, to: p },
                        None => OrbitAction::Ignore,
                    },
                ),
                None => (s, OrbitAction::Ignore),
            }
        } else {
            (s, OrbitAction::Ignore)
        },
        PointerEvent::WheelScrolled(Some(_)) => (s, OrbitAction::Zoom),
        _ => (s, OrbitAction::Ignore),
    }
}

impl<P: Copy> InternalState<P> {
    /// The state before any event.
    pub fn new() -> (s: Self)
        ensures
            !s.dragging,
            s.last_cursor is None,
    {
        InternalState { dragging: false, last_cursor: None }
    }

    /// Handle one pointer event: update the drag state and say what the
    /// viewport publishes.
    pub fn update(&mut self, ev: PointerEvent<P>) -> (a: OrbitAction<P>)
        ensures
            (*final(self), a) == orbit_step(*old(self), ev),
    {
        match ev {
            PointerEvent::ButtonPressed(MouseButton::Left, Some(p)) => {
                self.dragging = true;
                self.last_cursor = Some(p);
                OrbitAction::Capture
            },
            PointerEvent::ButtonReleased(MouseButton::Left, _) => {
                self.dragging = false;
                self.last_cursor = None;
                OrbitAction::Ignore
            },
            PointerEvent::CursorMoved(pos, _) => {
                if !self.dragging {
                    return OrbitAction::Ignore;
                }
                match pos {
                    Some(p) => {
                        let prev = self.last_cursor;
                        self.last_cursor = Some(p);
                        match prev {
                            Some(q) => OrbitAction::OrbitBy { from: q, to: p },
                            None => OrbitAction::Ignore,
                        }
                    },
                    None => OrbitAction::Ignore,
                }
            },
            PointerEvent::WheelScrolled(Some(_)) => OrbitAction::Zoom,
            _ => OrbitAction::Ignore,
        }
    }
}

/// An orbit drag: after a left press inside the viewport, each move inside
/// it orbits by the step from the previous cursor position, and the release
/// ends the drag so later moves do nothing.
pub proof fn lemma_orbit_drag<P>(s: InternalState<P>, p: P, m: P, pos: Option<P>, n: P, beyond: bool)
    ensures
        ({
            let s1 = orbit_step(s, PointerEvent::ButtonPressed(MouseButton::Left, Some(p))).0;
            let (s2, a2) = orbit_step(s1, PointerEvent::CursorMoved(Some(m), beyond));
            let s3 = orbit_step(s2, PointerEvent::ButtonReleased(MouseButton::Left, pos)).0;
            &&& a2 == (OrbitAction::OrbitBy { from: p, to: m })
            &&& !s3.dragging
            &&& orbit_step(s3, PointerEvent::CursorMoved(Some(n), beyond)).1 == OrbitAction::<P>::Ignore
        }),
{
}

} // verus!
