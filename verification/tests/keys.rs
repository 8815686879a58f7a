// Keyboard shortcuts.

use doombuilder::editor::{fly_action, EditMode, FlyAction, FlyDirection, Mode, SettingKey};
use doombuilder::keys::{key_action, Key, KeyAction, KeyEvent, KeyMods, NamedKey};

fn mods(shift: bool, command: bool, alt: bool) -> KeyMods {
    KeyMods { shift, command, alt }
}

fn press(c: char, m: KeyMods) -> KeyAction {
    key_action(KeyEvent::Pressed(Key::Character(c), m))
}

fn press_named(k: NamedKey, m: KeyMods) -> KeyAction {
    key_action(KeyEvent::Pressed(Key::Named(k), m))
}

const PLAIN: KeyMods = KeyMods { shift: false, command: false, alt: false };

#[test]
fn digits_recall_and_store_selection_groups() {
    assert_eq!(press('0', PLAIN), KeyAction::SelectGroup(0));
    assert_eq!(press('7', PLAIN), KeyAction::SelectGroup(7));
    assert_eq!(press('9', mods(false, true, false)), KeyAction::AssignGroup(9));
    assert_eq!(press('3', mods(true, true, false)), KeyAction::AssignGroup(3));
}

#[test]
fn letters_switch_edit_modes() {
    assert_eq!(press('v', PLAIN), KeyAction::SetEditMode(EditMode::Vertices));
    assert_eq!(press('l', PLAIN), KeyAction::SetEditMode(EditMode::Linedefs));
    assert_eq!(press('s', PLAIN), KeyAction::SetEditMode(EditMode::Sectors));
    assert_eq!(press('t', PLAIN), KeyAction::SetEditMode(EditMode::Things));
    assert_eq!(press('q', PLAIN), KeyAction::ToggleVisualMode);
}

#[test]
fn command_shortcuts() {
    let cmd = mods(false, true, false);
    let cmd_shift = mods(true, true, false);
    assert_eq!(press('a', cmd), KeyAction::SelectAll);
    assert_eq!(press('z', cmd), KeyAction::Undo);
    assert_eq!(press('z', cmd_shift), KeyAction::Redo);
    assert_eq!(press('y', cmd), KeyAction::Redo);
    assert_eq!(press('s', cmd), KeyAction::SaveMapRequested);
    assert_eq!(press('c', cmd), KeyAction::CopySelection);
    assert_eq!(press('x', cmd), KeyAction::CutSelection);
    assert_eq!(press('v', cmd), KeyAction::PasteSelection);
    assert_eq!(press('v', cmd_shift), KeyAction::PasteProperties);
    assert_eq!(press('c', cmd_shift), KeyAction::PasteProperties);
    assert_eq!(press('m', cmd), KeyAction::MakeSector);
    assert_eq!(press('g', cmd_shift), KeyAction::OpenGoToCoords);
    assert_eq!(press('g', cmd), KeyAction::GHotkey { shift: false, ctrl: true });
}

#[test]
fn auto_align_and_fly_keys() {
    assert_eq!(press('a', PLAIN), KeyAction::AutoAlignX);
    assert_eq!(press('a', mods(true, true, false)), KeyAction::AutoAlignBoth);
    let shift_a = press('a', mods(true, false, false));
    assert_eq!(shift_a, KeyAction::FlyMove(FlyDirection::StrafeLeft));
    assert_eq!(fly_action(Mode::View2D, FlyDirection::StrafeLeft), FlyAction::AutoAlignY);
    assert_eq!(fly_action(Mode::View3D, FlyDirection::StrafeLeft), FlyAction::Move { forward: 0, right: -1 });
    assert_eq!(press('w', mods(true, false, false)), KeyAction::FlyMove(FlyDirection::Forward));
    assert_eq!(press('s', mods(true, false, false)), KeyAction::FlyMove(FlyDirection::Back));
    // Shift+D is taken by "make door" before the fly binding is reached.
    assert_eq!(press('d', mods(true, false, false)), KeyAction::MakeDoor);
    assert_eq!(press('a', mods(false, false, true)), KeyAction::ModifiersChanged(mods(false, false, true)));
}

#[test]
fn drawing_and_grid_keys() {
    assert_eq!(press('d', PLAIN), KeyAction::ToggleDrawing);
    assert_eq!(press('d', mods(true, true, false)), KeyAction::StartRectangleDraw);
    assert_eq!(press('d', mods(true, false, true)), KeyAction::StartEllipseDraw);
    assert_eq!(press('d', mods(false, true, true)), KeyAction::StartCurveDraw);
    assert_eq!(press('[', PLAIN), KeyAction::CycleGridStep(1));
    assert_eq!(press(']', PLAIN), KeyAction::CycleGridStep(-1));
    assert_eq!(press('+', PLAIN), KeyAction::AdjustDrawParam(1));
    assert_eq!(press('_', PLAIN), KeyAction::AdjustDrawParam(-1));
    assert_eq!(press('g', mods(false, false, true)), KeyAction::ToggleSetting(SettingKey::ShowGrid));
    assert_eq!(press('g', mods(true, false, false)), KeyAction::GHotkey { shift: true, ctrl: false });
    assert_eq!(press('e', PLAIN), KeyAction::RotateSelection90);
    assert_eq!(press('e', mods(true, false, false)), KeyAction::FlipSelectionVertical);
    assert_eq!(press('e', mods(false, true, false)), KeyAction::FlipSelectionHorizontal);
    assert_eq!(press('j', PLAIN), KeyAction::JoinSectors);
    assert_eq!(press('j', mods(true, false, false)), KeyAction::MergeSectors);
    assert_eq!(press('l', mods(true, false, false)), KeyAction::PointThingsToCursor);
}

#[test]
fn named_keys() {
    assert_eq!(press_named(NamedKey::Escape, PLAIN), KeyAction::KeyboardEsc);
    assert_eq!(
        press_named(NamedKey::ArrowLeft, mods(true, false, false)),
        KeyAction::PanCamera { dx_units: -1, dy_units: 0, fast: true }
    );
    assert_eq!(press_named(NamedKey::ArrowUp, PLAIN), KeyAction::PanCamera { dx_units: 0, dy_units: 1, fast: false });
    assert_eq!(press_named(NamedKey::F9, PLAIN), KeyAction::ModifiersChanged(PLAIN));
    assert_eq!(press_named(NamedKey::F9, mods(false, true, false)), KeyAction::TestMapAtCursor);
    assert_eq!(press_named(NamedKey::F11, PLAIN), KeyAction::OpenMapAnalysis);
    assert_eq!(press_named(NamedKey::PageDown, PLAIN), KeyAction::VerticalCamera { units: -1, fast: false });
    assert_eq!(press_named(NamedKey::Space, PLAIN), KeyAction::SpaceHeld(true));
    assert_eq!(press_named(NamedKey::Backspace, PLAIN), KeyAction::DrawingRemoveLast);
}

#[test]
fn releases_and_unbound_keys_report_modifiers() {
    assert_eq!(
        key_action(KeyEvent::Released(Key::Named(NamedKey::Space), PLAIN)),
        KeyAction::SpaceHeld(false)
    );
    let m = mods(true, false, true);
    assert_eq!(key_action(KeyEvent::Released(Key::Character('a'), m)), KeyAction::ModifiersChanged(m));
    assert_eq!(key_action(KeyEvent::Pressed(Key::Unidentified, m)), KeyAction::ModifiersChanged(m));
    assert_eq!(press('k', PLAIN), KeyAction::ModifiersChanged(PLAIN));
    assert_eq!(key_action(KeyEvent::ModifiersChanged(m)), KeyAction::ModifiersChanged(m));
}
