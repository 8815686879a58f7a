// Pointer gestures of the 2D and 3D viewports.

use doombuilder::view2d::{InternalState, MouseButton, PointerAction, PointerEvent};
use doombuilder::view3d::{InternalState as OrbitState, OrbitAction};

type P = (f32, f32);

#[test]
fn click_without_drag() {
    let mut s: InternalState<P> = InternalState::new();
    assert_eq!(s.update(PointerEvent::ButtonPressed(MouseButton::Left, Some((10.0, 10.0)))), PointerAction::Redraw);
    // A small move stays under the threshold: nothing published.
    assert_eq!(s.update(PointerEvent::CursorMoved(Some((11.0, 10.0)), false)), PointerAction::Ignore);
    assert_eq!(
        s.update(PointerEvent::ButtonReleased(MouseButton::Left, Some((11.0, 10.0)))),
        PointerAction::ClickAt((11.0, 10.0))
    );
    assert_eq!(s.drag_start, None);
    assert!(!s.drag_active);
}

#[test]
fn rectangle_drag() {
    let mut s: InternalState<P> = InternalState::new();
    s.update(PointerEvent::ButtonPressed(MouseButton::Left, Some((0.0, 0.0))));
    assert_eq!(
        s.update(PointerEvent::CursorMoved(Some((20.0, 5.0)), true)),
        PointerAction::RectDragMoved { start: (0.0, 0.0), current: (20.0, 5.0) }
    );
    // Once active, even a move back near the start keeps dragging.
    assert_eq!(
        s.update(PointerEvent::CursorMoved(Some((1.0, 1.0)), false)),
        PointerAction::RectDragMoved { start: (0.0, 0.0), current: (1.0, 1.0) }
    );
    assert_eq!(
        s.update(PointerEvent::ButtonReleased(MouseButton::Left, Some((30.0, 40.0)))),
        PointerAction::RectDragComplete { start: (0.0, 0.0), end: (30.0, 40.0) }
    );
}

#[test]
fn pan_hover_zoom_and_leave() {
    let mut s: InternalState<P> = InternalState::new();
    assert_eq!(s.update(PointerEvent::CursorMoved(Some((5.0, 5.0)), false)), PointerAction::HoverAt((5.0, 5.0)));
    assert!(s.cursor_in_bounds);
    assert_eq!(s.update(PointerEvent::ButtonPressed(MouseButton::Right, Some((5.0, 5.0)))), PointerAction::Redraw);
    assert_eq!(
        s.update(PointerEvent::CursorMoved(Some((8.0, 4.0)), false)),
        PointerAction::PanBy { from: (5.0, 5.0), to: (8.0, 4.0) }
    );
    assert_eq!(s.update(PointerEvent::ButtonReleased(MouseButton::Right, None)), PointerAction::Ignore);
    assert!(!s.panning);
    assert_eq!(s.update(PointerEvent::WheelScrolled(Some((2.0, 3.0)))), PointerAction::ZoomAt((2.0, 3.0)));
    assert_eq!(s.update(PointerEvent::WheelScrolled(None)), PointerAction::Ignore);
    s.update(PointerEvent::ButtonPressed(MouseButton::Left, Some((1.0, 1.0))));
    assert_eq!(s.update(PointerEvent::CursorLeft), PointerAction::HoverCleared);
    assert!(!s.cursor_in_bounds && !s.panning && !s.drag_active && s.drag_start.is_none());
    // A press outside the viewport starts nothing.
    assert_eq!(s.update(PointerEvent::ButtonPressed(MouseButton::Left, None)), PointerAction::Ignore);
    assert_eq!(s.drag_start, None);
}

#[test]
fn orbit_drag_and_zoom() {
    let mut s: OrbitState<P> = OrbitState::new();
    assert_eq!(s.update(PointerEvent::CursorMoved(Some((1.0, 1.0)), false)), OrbitAction::Ignore);
    assert_eq!(s.update(PointerEvent::ButtonPressed(MouseButton::Left, Some((1.0, 1.0)))), OrbitAction::Capture);
    assert_eq!(
        s.update(PointerEvent::CursorMoved(Some((4.0, 2.0)), false)),
        OrbitAction::OrbitBy { from: (1.0, 1.0), to: (4.0, 2.0) }
    );
    assert_eq!(
        s.update(PointerEvent::CursorMoved(Some((6.0, 2.0)), false)),
        OrbitAction::OrbitBy { from: (4.0, 2.0), to: (6.0, 2.0) }
    );
    assert_eq!(s.update(PointerEvent::ButtonReleased(MouseButton::Left, None)), OrbitAction::Ignore);
    assert!(!s.dragging);
    assert_eq!(s.update(PointerEvent::CursorMoved(Some((9.0, 9.0)), false)), OrbitAction::Ignore);
    assert_eq!(s.update(PointerEvent::WheelScrolled(Some((0.0, 0.0)))), OrbitAction::Zoom);
}
