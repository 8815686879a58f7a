// Editor modes, settings and the decisions of the message handler.

use doombuilder::editor::{
    cycle_grid_step, default_true, edit_mode_matches, escape_action, fly_action, retain_for_mode,
    sector_field_changes, selected_sectors, switch_edit_mode, wheel_adjustment, EditMode, EscapeAction, FlyAction,
    FlyDirection, HighlightKind, Mode, NodeBuilder, NodeBuilderKind, SectorFieldChange, SectorIntField,
    SettingKey, Settings, ThemeKind, View2DMode, MAX_RECENT,
};
use doombuilder::map::{LinedefId, MapData, MapSector, SectorId, TextureName, ThingId, VertexId};

#[test]
fn edit_mode_labels() {
    assert_eq!(EditMode::Vertices.label(), "Vertices");
    assert_eq!(EditMode::Linedefs.label(), "Linedefs");
    assert_eq!(EditMode::Sectors.label(), "Sectors");
    assert_eq!(EditMode::Things.label(), "Things");
    assert_eq!(EditMode::default(), EditMode::Linedefs);
}

#[test]
fn view_and_builder_labels() {
    assert_eq!(View2DMode::Floor.label(), "Floor textures");
    assert_eq!(View2DMode::Ceiling.label(), "Ceiling textures");
    assert_eq!(View2DMode::Brightness.label(), "Brightness levels");
    assert_eq!(View2DMode::Wireframe.label(), "Wireframe");
    assert_eq!(NodeBuilderKind::Builtin.label(), "Built-in (Rust)");
    assert_eq!(NodeBuilderKind::Zdbsp.label(), "zdbsp (external)");
}

#[test]
fn themes_in_menu_order() {
    let all = ThemeKind::all();
    assert_eq!(all.len(), 6);
    assert_eq!(all[0], ThemeKind::Dark);
    assert_eq!(all[5], ThemeKind::Solarized);
    let labels: Vec<&str> = all.iter().map(|t| t.label()).collect();
    assert_eq!(labels, vec!["Dark", "Light", "Nord", "Dracula", "Gruvbox", "Solarized"]);
}

#[test]
fn default_settings_values() {
    let s = Settings::default_settings();
    assert!(s.show_textures && s.show_sprites && s.show_grid && s.show_things && s.snap_to_grid);
    assert!(!s.always_show_vertices);
    assert!(s.grid_size.is_none());
    assert!(s.recent_files.is_empty());
    assert_eq!(s.theme, ThemeKind::Dark);
    assert_eq!(s.view_mode, View2DMode::Floor);
    assert!(s.show_3d_overlay);
    assert!(!s.full_brightness);
    assert_eq!(s.node_builder, NodeBuilderKind::Builtin);
    assert!(default_true());
}

#[test]
fn push_recent_moves_to_front_without_duplicates() {
    let mut s = Settings::default_settings();
    s.push_recent("a.wad".to_string());
    s.push_recent("b.wad".to_string());
    s.push_recent("a.wad".to_string());
    assert_eq!(s.recent_files, vec!["a.wad".to_string(), "b.wad".to_string()]);
}

#[test]
fn push_recent_keeps_at_most_eight() {
    let mut s = Settings::default_settings();
    for i in 0..12 {
        s.push_recent(format!("map{i}.wad"));
    }
    assert_eq!(s.recent_files.len(), MAX_RECENT);
    assert_eq!(s.recent_files[0], "map11.wad");
    assert_eq!(s.recent_files[7], "map4.wad");
}

#[test]
fn setting_keys_toggle_their_own_field() {
    let mut s = Settings::default_settings();
    assert!(SettingKey::ShowGrid.get(&s));
    SettingKey::ShowGrid.set(&mut s, false);
    assert!(!s.show_grid);
    assert!(s.show_things);
    SettingKey::AlwaysShowVertices.set(&mut s, true);
    assert!(s.always_show_vertices);
    assert_eq!(SettingKey::ShowGrid.label(), "Show grid");
    assert_eq!(SettingKey::SnapToGrid.label(), "Snap to grid (drawing + vertex drag)");
    // Toggling twice restores the value.
    let v = SettingKey::ShowSprites.get(&s);
    SettingKey::ShowSprites.set(&mut s, !v);
    let w = SettingKey::ShowSprites.get(&s);
    SettingKey::ShowSprites.set(&mut s, !w);
    assert_eq!(SettingKey::ShowSprites.get(&s), v);
}

#[test]
fn node_builder_needs_a_path() {
    let mut s = Settings::default_settings();
    assert!(matches!(s.make_node_builder(), NodeBuilder::Builtin));
    s.node_builder = NodeBuilderKind::Zdbsp;
    assert!(matches!(s.make_node_builder(), NodeBuilder::Builtin));
    s.zdbsp_path = Some("/usr/bin/zdbsp".to_string());
    match s.make_node_builder() {
        NodeBuilder::Zdbsp { exe, extra_args } => {
            assert_eq!(exe, "/usr/bin/zdbsp");
            assert!(extra_args.is_empty());
        }
        other => panic!("expected zdbsp, got {other:?}"),
    }
}

#[test]
fn grid_step_cycles_both_ways() {
    assert_eq!(cycle_grid_step(None, 1), Some(8));
    assert_eq!(cycle_grid_step(Some(8), 1), Some(16));
    assert_eq!(cycle_grid_step(Some(512), 1), None);
    assert_eq!(cycle_grid_step(None, -1), Some(512));
    assert_eq!(cycle_grid_step(Some(64), -1), Some(32));
    // An unknown size counts as the first position.
    assert_eq!(cycle_grid_step(Some(100), 1), Some(8));
    // There and back again.
    assert_eq!(cycle_grid_step(cycle_grid_step(Some(32), 3), -3), Some(32));
}

#[test]
fn selection_follows_the_mode() {
    let sel = vec![
        HighlightKind::Vertex(VertexId(1)),
        HighlightKind::Sector(SectorId(2)),
        HighlightKind::Linedef(LinedefId(3)),
        HighlightKind::Sector(SectorId(4)),
        HighlightKind::Thing(ThingId(5)),
    ];
    let kept = retain_for_mode(&sel, EditMode::Sectors);
    assert_eq!(kept, vec![HighlightKind::Sector(SectorId(2)), HighlightKind::Sector(SectorId(4))]);
    assert_eq!(selected_sectors(&sel), vec![SectorId(2), SectorId(4)]);
    assert!(edit_mode_matches(EditMode::Things, HighlightKind::Thing(ThingId(0))));
    assert!(!edit_mode_matches(EditMode::Vertices, HighlightKind::Thing(ThingId(0))));
}

fn sector(light: i16, floor: i16) -> MapSector {
    MapSector {
        floor_height: floor,
        ceiling_height: 128,
        floor_texture: TextureName([0; 8]),
        ceiling_texture: TextureName([0; 8]),
        light,
        special: 0,
        tag: 0,
        sidedefs: Vec::new(),
    }
}

#[test]
fn sector_nudges_clamp_and_skip_unchanged() {
    let mut map = MapData::new();
    let a = map.insert_sector(sector(250, 0));
    let b = map.insert_sector(sector(100, 32767));
    let changes = sector_field_changes(&map, &vec![a, b, SectorId(9)], SectorIntField::Light, 8);
    assert_eq!(changes, vec![
        SectorFieldChange { id: a, field: SectorIntField::Light, old: 250, new: 258 },
        SectorFieldChange { id: b, field: SectorIntField::Light, old: 100, new: 108 },
    ]);
    let floors = sector_field_changes(&map, &vec![a, b], SectorIntField::FloorHeight, 8);
    // Sector b is already at the top of the range: no change for it.
    assert_eq!(floors, vec![SectorFieldChange { id: a, field: SectorIntField::FloorHeight, old: 0, new: 8 }]);
}

#[test]
fn wheel_picks_field_and_step() {
    assert_eq!(wheel_adjustment(true, false, false, false, false), (SectorIntField::FloorHeight, 8));
    assert_eq!(wheel_adjustment(false, false, false, false, true), (SectorIntField::FloorHeight, -1));
    assert_eq!(wheel_adjustment(true, true, false, false, false), (SectorIntField::Light, 8));
    assert_eq!(wheel_adjustment(false, false, true, false, false), (SectorIntField::CeilingHeight, -8));
    assert_eq!(wheel_adjustment(true, false, false, true, true), (SectorIntField::Light, 1));
}

#[test]
fn escape_priorities() {
    assert_eq!(escape_action(true, true, false), EscapeAction::CancelDrawing);
    assert_eq!(escape_action(false, true, false), EscapeAction::CancelDrag);
    assert_eq!(escape_action(false, false, false), EscapeAction::ClearSelection);
    assert_eq!(escape_action(false, false, true), EscapeAction::Nothing);
}

#[test]
fn fly_keys_move_in_3d_and_keep_2d_bindings() {
    assert_eq!(fly_action(Mode::View3D, FlyDirection::Forward), FlyAction::Move { forward: 1, right: 0 });
    assert_eq!(fly_action(Mode::View3D, FlyDirection::Back), FlyAction::Move { forward: -1, right: 0 });
    assert_eq!(fly_action(Mode::View3D, FlyDirection::StrafeLeft), FlyAction::Move { forward: 0, right: -1 });
    assert_eq!(fly_action(Mode::View3D, FlyDirection::StrafeRight), FlyAction::Move { forward: 0, right: 1 });
    assert_eq!(fly_action(Mode::View2D, FlyDirection::StrafeLeft), FlyAction::AutoAlignY);
    assert_eq!(fly_action(Mode::View2D, FlyDirection::StrafeRight), FlyAction::MakeDoor);
    assert_eq!(fly_action(Mode::View2D, FlyDirection::Forward), FlyAction::Nothing);
}

#[test]
fn theme_defaults_to_dark() {
    assert_eq!(ThemeKind::default(), ThemeKind::Dark);
}

#[test]
fn switching_edit_mode_filters_selection_and_drops_hover() {
    let sel = vec![
        HighlightKind::Vertex(VertexId(1)),
        HighlightKind::Linedef(LinedefId(2)),
        HighlightKind::Vertex(VertexId(3)),
    ];
    let hover = Some(HighlightKind::Linedef(LinedefId(2)));
    let (m, s, h, redraw) = switch_edit_mode(EditMode::Linedefs, EditMode::Vertices, &sel, hover);
    assert_eq!(m, EditMode::Vertices);
    assert_eq!(s, vec![HighlightKind::Vertex(VertexId(1)), HighlightKind::Vertex(VertexId(3))]);
    assert_eq!(h, None);
    assert!(redraw);
    let (m, s, h, redraw) = switch_edit_mode(EditMode::Linedefs, EditMode::Linedefs, &sel, hover);
    assert_eq!(m, EditMode::Linedefs);
    assert_eq!(s, sel);
    assert_eq!(h, hover);
    assert!(!redraw);
}
