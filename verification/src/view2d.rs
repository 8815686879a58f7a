//! Pointer handling of the 2D viewport: the gesture state the canvas keeps
//! between mouse events, and the message each event produces. Middle or
//! right drag pans; a left press followed by a move past the drag threshold
//! becomes a rectangle drag, and without one the release is a click. The
//! position type `P` is the caller's; the distance test against the drag
//! threshold is made by the caller and handed in with each move.

use vstd::prelude::*;

verus! {

#[derive(Clone, Copy, Debug, PartialEq, Eq, Structural)]
pub enum MouseButton {
    Left,
    Middle,
    Right,
    Other,
}

/// A mouse event over the viewport. Positions are `Some` when the cursor
/// lies inside the viewport bounds.
#[derive(Clone, Copy, Debug, PartialEq)]
pub enum PointerEvent<P> {
    CursorLeft,
    ButtonPressed(MouseButton, Option<P>),
    ButtonReleased(MouseButton, Option<P>),
    /// The cursor moved; the flag tells whether the new position lies past
    /// the drag threshold from where the left button went down.
    CursorMoved(Option<P>, bool),
    WheelScrolled(Option<P>),
    Other,
}

/// What the viewport does with an event.
#[derive(Clone, Copy, Debug, PartialEq)]
pub enum PointerAction<P> {
    /// Not handled; the event goes on to other widgets.
    Ignore,
    /// Handled; redraw.
    Redraw,
    HoverCleared,
    RectDragComplete { start: P, end: P },
    ClickAt(P),
    PanBy { from: P, to: P },
    RectDragMoved { start: P, current: P },
    HoverAt(P),
    ZoomAt(P),
}

/// The gesture state the 2D canvas keeps between events.
#[derive(Clone, Copy, Debug, PartialEq)]
pub struct InternalState<P> {
    pub panning: bool,
    pub last_cursor: Option<P>,
    pub cursor_in_bounds: bool,
    pub drag_start: Option<P>,
    pub drag_active: bool,
}

/// The state and action after one event.
pub open spec fn step<P>(s: InternalState<P>, ev: PointerEvent<P>) -> (InternalState<P>, PointerAction<P>) {
    match ev {
        PointerEvent::CursorLeft => (
            InternalState { cursor_in_bounds: false, panning: false, drag_start: None, drag_active: false, ..s },
            PointerAction::HoverCleared,
        ),
        PointerEvent::ButtonPressed(b, pos) => match pos {
            Some(p) => if b == MouseButton::Middle || b == MouseButton::Right {
                (InternalState { panning: true, last_cursor: Some(p), ..s }, PointerAction::Redraw)
            } else if b == MouseButton::Left {
                (InternalState { drag_start: Some(p), drag_active: false, ..s }, PointerAction::Redraw)
            } else {
                (s, PointerAction::Ignore)
            },
            None => (s, PointerAction::Ignore),
        },
        PointerEvent::ButtonReleased(b, pos) => if b == MouseButton::Middle || b == MouseButton::Right {
            (InternalState { panning: false, last_cursor: None, ..s }, PointerAction::Ignore)
        } else if b == MouseButton::Left {
            match pos {
                None => (InternalState { drag_start: None, drag_active: false, ..s }, PointerAction::Ignore),
                Some(p) => (
                    InternalState { drag_start: None, drag_active: false, ..s },
                    match s.drag_start {
                        Some(start) if s.drag_active => PointerAction::RectDragComplete { start, end: p },
                        _ => PointerAction::ClickAt(p),
                    },
                ),
            }
        } else {
            (s, PointerAction::Ignore)
        },
        PointerEvent::CursorMoved(pos, beyond) => match pos {
            None => (s, PointerAction::Ignore),
            Some(p) => {
                let moved = InternalState { cursor_in_bounds: true, last_cursor: Some(p), ..s };
                if s.panning {
                    match s.last_cursor {
                        Some(prev) => (moved, PointerAction::PanBy { from: prev, to: p }),
                        None => (moved, PointerAction::Ignore),
                    }
                } else {
                    match s.drag_start {
                        Some(start) => if s.drag_active || beyond {
                            (InternalState { drag_active: true, ..moved }, PointerAction::RectDragMoved { start, current: p })
                        } else {
                            (moved, PointerAction::Ignore)
                        },
                        None => (moved, PointerAction::HoverAt(p)),
                    }
                }
            },
        },
        PointerEvent::WheelScrolled(pos) => match pos {
            Some(p) => (s, PointerAction::ZoomAt(p)),
            None => (s, PointerAction::Ignore),
        },
        PointerEvent::Other => (s, PointerAction::Ignore),
    }
}

impl<P: Copy> InternalState<P> {
    /// The state before any event.
    pub fn new() -> (s: Self)
        ensures
            !s.panning && s.last_cursor is None && !s.cursor_in_bounds && s.drag_start is None && !s.drag_active,
    {
        InternalState { panning: false, last_cursor: None, cursor_in_bounds: false, drag_start: None, drag_active: false }
    }

    /// Handle one pointer event: update the gesture state and say what the
    /// viewport publishes.
    pub fn update(&mut self, ev: PointerEvent<P>) -> (a: PointerAction<P>)
        ensures
            (*final(self), a) == step(*old(self), ev),
    {
        match ev {
            PointerEvent::CursorLeft => {
                self.cursor_in_bounds = false;
                self.panning = false;
                self.drag_start = None;
                self.drag_active = false;
                PointerAction::HoverCleared
            },
            PointerEvent::ButtonPressed(b, pos) => match pos {
                Some(p) => match b {
                    MouseButton::Middle | MouseButton::Right => {
                        self.panning = true;
                        self.last_cursor = Some(p);
                        PointerAction::Redraw
                    },
                    MouseButton::Left => {
                        self.drag_start = Some(p);
                        self.drag_active = false;
                        PointerAction::Redraw
                    },
                    MouseButton::Other => PointerAction::Ignore,
                },
                None => PointerAction::Ignore,
            },
            PointerEvent::ButtonReleased(b, pos) => match b {
                MouseButton::Middle | MouseButton::Right => {
                    self.panning = false;
                    self.last_cursor = None;
                    PointerAction::Ignore
                },
                MouseButton::Left => {
                    let was_drag = self.drag_active;
                    let start = self.drag_start;
                    self.drag_start = None;
                    self.drag_active = false;
                    match pos {
                        None => PointerAction::Ignore,
                        Some(p) => match start {
                            Some(s0) if was_drag => PointerAction::RectDragComplete { start: s0, end: p },
                            _ => PointerAction::ClickAt(p),
                        },
                    }
                },
                MouseButton::Other => PointerAction::Ignore,
            },
            PointerEvent::CursorMoved(pos, beyond) => match pos {
                None => PointerAction::Ignore,
                Some(p) => {
                    self.cursor_in_bounds = true;
                    let prev = self.last_cursor;
                    self.last_cursor = Some(p);
                    if self.panning {
                        match prev {
                            Some(q) => PointerAction::PanBy { from: q, to: p },
                            None => PointerAction::Ignore,
                        }
                    } else {
                        match self.drag_start {
                            Some(start) => {
                                if self.drag_active || beyond {
                                    self.drag_active = true;
                                    PointerAction::RectDragMoved { start, current: p }
                                } else {
                                    PointerAction::Ignore
                                }
                            },
                            None => PointerAction::HoverAt(p),
                        }
                    }
                },
            },
            PointerEvent::WheelScrolled(pos) => match pos {
                Some(p) => PointerAction::ZoomAt(p),
                None => PointerAction::Ignore,
            },
            PointerEvent::Other => PointerAction::Ignore,
        }
    }
}

/// A left press and release with no move past the drag threshold between
/// them is a click where the button came up.
pub proof fn lemma_press_release_clicks<P>(s: InternalState<P>, p: P, q: P)
    ensures
        step(step(s, PointerEvent::ButtonPressed(MouseButton::Left, Some(p))).0, PointerEvent::ButtonReleased(
            MouseButton::Left,
            Some(q),
        )).1 == PointerAction::ClickAt(q),
{
}

/// A left press, a move past the drag threshold (while not panning) and a
/// release complete a rectangle drag from the press to the release; the
/// move reports the rectangle so far.
pub proof fn lemma_press_drag_release<P>(s: InternalState<P>, p: P, m: P, q: P)
    requires
        !s.panning,
    ensures
        ({
            let s1 = step(s, PointerEvent::ButtonPressed(MouseButton::Left, Some(p))).0;
            let (s2, a2) = step(s1, PointerEvent::CursorMoved(Some(m), true));
            &&& a2 == PointerAction::RectDragMoved { start: p, current: m }
            &&& step(s2, PointerEvent::ButtonReleased(MouseButton::Left, Some(q))).1 == PointerAction::RectDragComplete {
                start: p,
                end: q,
            }
        }),
{
}

/// Once a rectangle drag is under way it stays one: every later move inside
/// the viewport extends it, whatever the distance, until the release.
pub proof fn lemma_drag_stays_active<P>(s: InternalState<P>, start: P, p: P, beyond: bool)
    requires
        !s.panning,
        s.drag_active,
        s.drag_start == Some(start),
    ensures
        step(s, PointerEvent::CursorMoved(Some(p), beyond)).0.drag_active,
        step(s, PointerEvent::CursorMoved(Some(p), beyond)).1 == (PointerAction::RectDragMoved { start, current: p }),
{
}

/// Every gesture ends when the button comes up or the cursor leaves the
/// viewport: no pan, press or drag survives either.
pub proof fn lemma_gestures_end<P>(s: InternalState<P>, pos: Option<P>)
    ensures
        (step(s, PointerEvent::ButtonReleased(MouseButton::Left, pos)).0.drag_start is None),
        !step(s, PointerEvent::ButtonReleased(MouseButton::Left, pos)).0.drag_active,
        !step(s, PointerEvent::ButtonReleased(MouseButton::Middle, pos)).0.panning,
        !step(s, PointerEvent::ButtonReleased(MouseButton::Right, pos)).0.panning,
        !step(s, PointerEvent::CursorLeft).0.panning,
        (step(s, PointerEvent::CursorLeft).0.drag_start is None),
        !step(s, PointerEvent::CursorLeft).0.drag_active,
{
}

} // verus!
