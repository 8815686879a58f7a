//! Keyboard shortcuts: the editor action that each key event stands for.
//! Bindings are tried in a fixed order, so where two of them claim the same
//! key and modifiers the earlier one wins; a key with no binding only
//! reports the modifiers it was pressed with.

use vstd::prelude::*;

use crate::editor::{fly_binding, EditMode, FlyAction, FlyDirection, Mode, SettingKey};

verus! {

/// The named (non-character) keys that have bindings; `Other` stands for
/// every other named key.
#[derive(Clone, Copy, Debug, PartialEq, Eq, Structural)]
pub enum NamedKey {
    Escape,
    ArrowLeft,
    ArrowRight,
    ArrowUp,
    ArrowDown,
    Delete,
    Backspace,
    Home,
    Space,
    Insert,
    PageUp,
    PageDown,
    F2,
    F4,
    F5,
    F9,
    F11,
    Other,
}

/// A logical key: a named key, the single character a key produced, or
/// anything else (no character, or text of several characters).
#[derive(Clone, Copy, Debug, PartialEq, Eq, Structural)]
pub enum Key {
    Named(NamedKey),
    Character(char),
    Unidentified,
}

/// Modifier state. `command` is Ctrl, or Cmd on macOS.
#[derive(Clone, Copy, Debug, PartialEq, Eq, Structural)]
pub struct KeyMods {
    pub shift: bool,
    pub command: bool,
    pub alt: bool,
}

#[derive(Clone, Copy, Debug, PartialEq, Eq, Structural)]
pub enum KeyEvent {
    Pressed(Key, KeyMods),
    Released(Key, KeyMods),
    ModifiersChanged(KeyMods),
}

/// What a key event asks the editor to do.
#[derive(Clone, Copy, Debug, PartialEq, Eq, Structural)]
pub enum KeyAction {
    KeyboardEsc,
    PanCamera { dx_units: i32, dy_units: i32, fast: bool },
    SelectAll,
    Undo,
    Redo,
    SaveMapRequested,
    DeleteSelection,
    DrawingRemoveLast,
    FitToScreen,
    OpenMapOptions,
    OpenGoToCoords,
    GHotkey { shift: bool, ctrl: bool },
    ToggleSetting(SettingKey),
    CycleGridStep(i32),
    ToggleHighlights,
    ToggleFullBrightness,
    PlaceVisualCamera,
    SpaceHeld(bool),
    InsertThing,
    StartRectangleDraw,
    StartEllipseDraw,
    StartCurveDraw,
    MakeDoor,
    ToggleDrawing,
    FlyMove(FlyDirection),
    PasteProperties,
    CopySelection,
    CutSelection,
    PasteSelection,
    FlipSelectionVertical,
    FlipSelectionHorizontal,
    RotateSelection90,
    CurveSelectedLines,
    FlipSidedefs,
    PointThingsToCursor,
    AutoAlignBoth,
    AutoAlignY,
    AutoAlignX,
    AdjustDrawParam(i32),
    MakeSector,
    MergeSectors,
    JoinSectors,
    TestMap,
    TestMapAtCursor,
    OpenMapAnalysis,
    VerticalCamera { units: i32, fast: bool },
    AssignGroup(u8),
    SelectGroup(u8),
    ToggleVisualMode,
    SetEditMode(EditMode),
    ModifiersChanged(KeyMods),
}

/// The binding of a named key.
pub open spec fn named_binding(k: NamedKey, m: KeyMods) -> KeyAction {
    match k {
        NamedKey::Escape => KeyAction::KeyboardEsc,
        NamedKey::ArrowLeft => KeyAction::PanCamera { dx_units: -1i32, dy_units: 0, fast: m.shift },
        NamedKey::ArrowRight => KeyAction::PanCamera { dx_units: 1, dy_units: 0, fast: m.shift },
        NamedKey::ArrowUp => KeyAction::PanCamera { dx_units: 0, dy_units: 1, fast: m.shift },
        NamedKey::ArrowDown => KeyAction::PanCamera { dx_units: 0, dy_units: -1i32, fast: m.shift },
        NamedKey::Delete => KeyAction::DeleteSelection,
        NamedKey::Backspace => KeyAction::DrawingRemoveLast,
        NamedKey::Home => KeyAction::FitToScreen,
        NamedKey::F2 => KeyAction::OpenMapOptions,
        NamedKey::Space => KeyAction::SpaceHeld(true),
        NamedKey::Insert => KeyAction::InsertThing,
        NamedKey::F5 => KeyAction::TestMap,
        NamedKey::F9 => if m.command {
            KeyAction::TestMapAtCursor
        } else {
            KeyAction::ModifiersChanged(m)
        },
        NamedKey::F4 => KeyAction::OpenMapAnalysis,
        NamedKey::F11 => KeyAction::OpenMapAnalysis,
        NamedKey::PageUp => KeyAction::VerticalCamera { units: 1, fast: m.shift },
        NamedKey::PageDown => KeyAction::VerticalCamera { units: -1i32, fast: m.shift },
        NamedKey::Other => KeyAction::ModifiersChanged(m),
    }
}

/// The binding of a letter key, in the order the bindings are tried.
pub open spec fn letter_binding(c: char, m: KeyMods) -> KeyAction {
    let none = KeyAction::ModifiersChanged(m);
    if c == 'a' {
        if m.command && !m.shift {
            KeyAction::SelectAll
        } else if m.shift && !m.command {
            KeyAction::FlyMove(FlyDirection::StrafeLeft)
        } else if m.command && m.shift {
            KeyAction::AutoAlignBoth
        } else if !m.alt {
            KeyAction::AutoAlignX
        } else {
            none
        }
    } else if c == 'z' {
        if m.command && m.shift {
            KeyAction::Redo
        } else if m.command {
            KeyAction::Undo
        } else {
            none
        }
    } else if c == 'y' {
        if m.command { KeyAction::Redo } else { none }
    } else if c == 's' {
        if m.command {
            KeyAction::SaveMapRequested
        } else if m.shift {
            KeyAction::FlyMove(FlyDirection::Back)
        } else {
            KeyAction::SetEditMode(EditMode::Sectors)
        }
    } else if c == 'g' {
        if m.command && m.shift {
            KeyAction::OpenGoToCoords
        } else if m.command {
            KeyAction::GHotkey { shift: false, ctrl: true }
        } else if m.alt {
            KeyAction::ToggleSetting(SettingKey::ShowGrid)
        } else {
            KeyAction::GHotkey { shift: m.shift, ctrl: false }
        }
    } else if c == 'h' {
        if !m.command { KeyAction::ToggleHighlights } else { none }
    } else if c == 'b' {
        if !m.command { KeyAction::ToggleFullBrightness } else { none }
    } else if c == 'w' {
        if m.command {
            KeyAction::PlaceVisualCamera
        } else if m.shift {
            KeyAction::FlyMove(FlyDirection::Forward)
        } else {
            none
        }
    } else if c == 'i' {
        if !m.command { KeyAction::InsertThing } else { none }
    } else if c == 'd' {
        if m.command && m.shift {
            KeyAction::StartRectangleDraw
        } else if m.alt && m.shift {
            KeyAction::StartEllipseDraw
        } else if m.command && m.alt {
            KeyAction::StartCurveDraw
        } else if m.shift {
            KeyAction::MakeDoor
        } else if !m.command {
            KeyAction::ToggleDrawing
        } else {
            none
        }
    } else if c == 'c' {
        if m.command && m.shift {
            KeyAction::PasteProperties
        } else if m.command {
            KeyAction::CopySelection
        } else if m.shift {
            KeyAction::CurveSelectedLines
        } else {
            none
        }
    } else if c == 'x' {
        if m.command { KeyAction::CutSelection } else { none }
    } else if c == 'v' {
        if m.command && m.shift {
            KeyAction::PasteProperties
        } else if m.command {
            KeyAction::PasteSelection
        } else {
            KeyAction::SetEditMode(EditMode::Vertices)
        }
    } else if c == 'e' {
        if m.shift {
            KeyAction::FlipSelectionVertical
        } else if m.command {
            KeyAction::FlipSelectionHorizontal
        } else {
            KeyAction::RotateSelection90
        }
    } else if c == 'f' {
        if m.shift { KeyAction::FlipSidedefs } else { none }
    } else if c == 'l' {
        if m.shift {
            KeyAction::PointThingsToCursor
        } else if !m.command {
            KeyAction::SetEditMode(EditMode::Linedefs)
        } else {
            none
        }
    } else if c == 'm' {
        if m.command { KeyAction::MakeSector } else { none }
    } else if c == 'j' {
        if m.shift {
            KeyAction::MergeSectors
        } else if !m.command {
            KeyAction::JoinSectors
        } else {
            none
        }
    } else if c == 'q' {
        if !m.command { KeyAction::ToggleVisualMode } else { none }
    } else if c == 't' {
        if !m.command { KeyAction::SetEditMode(EditMode::Things) } else { none }
    } else {
        none
    }
}

/// The binding of a character key.
pub open spec fn char_binding(c: char, m: KeyMods) -> KeyAction {
    if c == '[' {
        KeyAction::CycleGridStep(1)
    } else if c == ']' {
        KeyAction::CycleGridStep(-1i32)
    } else if c == '=' || c == '+' {
        KeyAction::AdjustDrawParam(1)
    } else if c == '-' || c == '_' {
        KeyAction::AdjustDrawParam(-1i32)
    } else if '0' <= c <= '9' {
        let d = (c as int - '0' as int) as u8;
        if m.command {
            KeyAction::AssignGroup(d)
        } else {
            KeyAction::SelectGroup(d)
        }
    } else {
        letter_binding(c, m)
    }
}

/// The action a key event stands for.
pub open spec fn key_binding(ev: KeyEvent) -> KeyAction {
    match ev {
        KeyEvent::ModifiersChanged(m) => KeyAction::ModifiersChanged(m),
        KeyEvent::Pressed(k, m) => match k {
            Key::Named(n) => named_binding(n, m),
            Key::Character(c) => char_binding(c, m),
            Key::Unidentified => KeyAction::ModifiersChanged(m),
        },
        KeyEvent::Released(k, m) => match k {
            Key::Named(NamedKey::Space) => KeyAction::SpaceHeld(false),
            _ => KeyAction::ModifiersChanged(m),
        },
    }
}

fn named_action(k: NamedKey, m: KeyMods) -> (a: KeyAction)
    ensures
        a == named_binding(k, m),
{
    match k {
        NamedKey::Escape => KeyAction::KeyboardEsc,
        NamedKey::ArrowLeft => KeyAction::PanCamera { dx_units: -1i32, dy_units: 0, fast: m.shift },
        NamedKey::ArrowRight => KeyAction::PanCamera { dx_units: 1, dy_units: 0, fast: m.shift },
        NamedKey::ArrowUp => KeyAction::PanCamera { dx_units: 0, dy_units: 1, fast: m.shift },
        NamedKey::ArrowDown => KeyAction::PanCamera { dx_units: 0, dy_units: -1i32, fast: m.shift },
        NamedKey::Delete => KeyAction::DeleteSelection,
        NamedKey::Backspace => KeyAction::DrawingRemoveLast,
        NamedKey::Home => KeyAction::FitToScreen,
        NamedKey::F2 => KeyAction::OpenMapOptions,
        NamedKey::Space => KeyAction::SpaceHeld(true),
        NamedKey::Insert => KeyAction::InsertThing,
        NamedKey::F5 => KeyAction::TestMap,
        NamedKey::F9 => if m.command {
            KeyAction::TestMapAtCursor
        } else {
            KeyAction::ModifiersChanged(m)
        },
        NamedKey::F4 => KeyAction::OpenMapAnalysis,
        NamedKey::F11 => KeyAction::OpenMapAnalysis,
        NamedKey::PageUp => KeyAction::VerticalCamera { units: 1, fast: m.shift },
        NamedKey::PageDown => KeyAction::VerticalCamera { units: -1i32, fast: m.shift },
        NamedKey::Other => KeyAction::ModifiersChanged(m),
    }
}

fn letter_action(c: char, m: KeyMods) -> (a: KeyAction)
    ensures
        a == letter_binding(c, m),
{
    let none = KeyAction::ModifiersChanged(m);
    let (shift, cmd, alt) = (m.shift, m.command, m.alt);
    match c {
        'a' => if cmd && !shift {
            KeyAction::SelectAll
        } else if shift && !cmd {
            KeyAction::FlyMove(FlyDirection::StrafeLeft)
        } else if cmd {
            KeyAction::AutoAlignBoth
        } else if !alt {
            KeyAction::AutoAlignX
        } else {
            none
        },
        'z' => if !cmd {
            none
        } else if shift {
            KeyAction::Redo
        } else {
            KeyAction::Undo
        },
        'y' => if cmd { KeyAction::Redo } else { none },
        's' => if cmd {
            KeyAction::SaveMapRequested
        } else if shift {
            KeyAction::FlyMove(FlyDirection::Back)
        } else {
            KeyAction::SetEditMode(EditMode::Sectors)
        },
        'g' => if cmd {
            if shift { KeyAction::OpenGoToCoords } else { KeyAction::GHotkey { shift: false, ctrl: true } }
        } else if alt {
            KeyAction::ToggleSetting(SettingKey::ShowGrid)
        } else {
            KeyAction::GHotkey { shift, ctrl: false }
        },
        'h' => if cmd { none } else { KeyAction::ToggleHighlights },
        'b' => if cmd { none } else { KeyAction::ToggleFullBrightness },
        'w' => if cmd {
            KeyAction::PlaceVisualCamera
        } else if shift {
            KeyAction::FlyMove(FlyDirection::Forward)
        } else {
            none
        },
        'i' => if cmd { none } else { KeyAction::InsertThing },
        'd' => if shift {
            if cmd {
                KeyAction::StartRectangleDraw
            } else if alt {
                KeyAction::StartEllipseDraw
            } else {
                KeyAction::MakeDoor
            }
        } else if cmd {
            if alt { KeyAction::StartCurveDraw } else { none }
        } else {
            KeyAction::ToggleDrawing
        },
        'c' => if cmd {
            if shift { KeyAction::PasteProperties } else { KeyAction::CopySelection }
        } else if shift {
            KeyAction::CurveSelectedLines
        } else {
            none
        },
        'x' => if cmd { KeyAction::CutSelection } else { none },
        'v' => if cmd {
            if shift { KeyAction::PasteProperties } else { KeyAction::PasteSelection }
        } else {
            KeyAction::SetEditMode(EditMode::Vertices)
        },
        'e' => if shift {
            KeyAction::FlipSelectionVertical
        } else if cmd {
            KeyAction::FlipSelectionHorizontal
        } else {
            KeyAction::RotateSelection90
        },
        'f' => if shift { KeyAction::FlipSidedefs } else { none },
        'l' => if shift {
            KeyAction::PointThingsToCursor
        } else if cmd {
            none
        } else {
            KeyAction::SetEditMode(EditMode::Linedefs)
        },
        'm' => if cmd { KeyAction::MakeSector } else { none },
        'j' => if shift {
            KeyAction::MergeSectors
        } else if cmd {
            none
        } else {
            KeyAction::JoinSectors
        },
        'q' => if cmd { none } else { KeyAction::ToggleVisualMode },
        't' => if cmd { none } else { KeyAction::SetEditMode(EditMode::Things) },
        _ => none,
    }
}

fn char_action(c: char, m: KeyMods) -> (a: KeyAction)
    ensures
        a == char_binding(c, m),
{
    if c == '[' {
        KeyAction::CycleGridStep(1)
    } else if c == ']' {
        KeyAction::CycleGridStep(-1i32)
    } else if c == '=' || c == '+' {
        KeyAction::AdjustDrawParam(1)
    } else if c == '-' || c == '_' {
        KeyAction::AdjustDrawParam(-1i32)
    } else if '0' <= c && c <= '9' {
        let d: u8 = (c as u32 - '0' as u32) as u8;
        if m.command {
            KeyAction::AssignGroup(d)
        } else {
            KeyAction::SelectGroup(d)
        }
    } else {
        letter_action(c, m)
    }
}

/// The editor action a keyboard event stands for.
pub fn key_action(ev: KeyEvent) -> (a: KeyAction)
    ensures
        a == key_binding(ev),
{
    match ev {
        KeyEvent::ModifiersChanged(m) => KeyAction::ModifiersChanged(m),
        KeyEvent::Pressed(k, m) => match k {
            Key::Named(n) => named_action(n, m),
            Key::Character(c) => char_action(c, m),
            Key::Unidentified => KeyAction::ModifiersChanged(m),
        },
        KeyEvent::Released(k, m) => match k {
            Key::Named(NamedKey::Space) => KeyAction::SpaceHeld(false),
            _ => KeyAction::ModifiersChanged(m),
        },
    }
}

/// Number keys hold selection groups: a plain digit recalls its group, the
/// digit with Command stores the selection into it.
pub proof fn lemma_digit_keys_select_groups(c: char, m: KeyMods)
    requires
        '0' <= c <= '9',
    ensures
        key_binding(KeyEvent::Pressed(Key::Character(c), m)) == if m.command {
            KeyAction::AssignGroup((c as int - '0' as int) as u8)
        } else {
            KeyAction::SelectGroup((c as int - '0' as int) as u8)
        },
{
}

/// V, L, S and T without Command or Shift switch to the vertices, linedefs,
/// sectors and things edit modes; Q without Command toggles the 3D view.
pub proof fn lemma_mode_keys(m: KeyMods)
    requires
        !m.command,
        !m.shift,
    ensures
        key_binding(KeyEvent::Pressed(Key::Character('v'), m)) == KeyAction::SetEditMode(EditMode::Vertices),
        key_binding(KeyEvent::Pressed(Key::Character('l'), m)) == KeyAction::SetEditMode(EditMode::Linedefs),
        key_binding(KeyEvent::Pressed(Key::Character('s'), m)) == KeyAction::SetEditMode(EditMode::Sectors),
        key_binding(KeyEvent::Pressed(Key::Character('t'), m)) == KeyAction::SetEditMode(EditMode::Things),
        key_binding(KeyEvent::Pressed(Key::Character('q'), m)) == KeyAction::ToggleVisualMode,
{
}

/// Texture auto-align: A aligns on X, Command+Shift+A on both axes, and
/// Shift+A, which is the fly camera's strafe-left key, aligns on Y in the 2D
/// view while it strafes the camera left in the 3D view.
pub proof fn lemma_auto_align_keys(alt: bool)
    ensures
        key_binding(KeyEvent::Pressed(Key::Character('a'), KeyMods { shift: false, command: false, alt: false }))
            == KeyAction::AutoAlignX,
        key_binding(KeyEvent::Pressed(Key::Character('a'), KeyMods { shift: true, command: true, alt }))
            == KeyAction::AutoAlignBoth,
        key_binding(KeyEvent::Pressed(Key::Character('a'), KeyMods { shift: true, command: false, alt }))
            == KeyAction::FlyMove(FlyDirection::StrafeLeft),
        fly_binding(Mode::View2D, FlyDirection::StrafeLeft) == FlyAction::AutoAlignY,
        fly_binding(Mode::View3D, FlyDirection::StrafeLeft) == (FlyAction::Move { forward: 0, right: -1i8 }),
{
}

/// Releasing a key does nothing but report the modifiers, except for Space,
/// whose release ends the held-space state.
pub proof fn lemma_releases_report_modifiers(k: Key, m: KeyMods)
    ensures
        key_binding(KeyEvent::Released(k, m)) == if k == Key::Named(NamedKey::Space) {
            KeyAction::SpaceHeld(false)
        } else {
            KeyAction::ModifiersChanged(m)
        },
{
}

} // verus!
