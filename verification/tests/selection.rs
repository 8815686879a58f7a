// Select all, selection groups, the G key, map names and picked texture names.

use doombuilder::analysis::{texture_name_bytes, texture_name_from};
use doombuilder::editor::{EditMode, HighlightKind, SectorIntField};
use doombuilder::map::{LinedefId, MapData, MapThing, MapVertex, SectorId, ThingId, VertexId};
use doombuilder::selection::{
    clean_map_name, click_route, click_select, g_hotkey_action, select_all, selection_counts, ClickRoute, GHotkeyAction,
    SelectionCounts, SelectionGroups,
};

fn thing(x: i32) -> MapThing {
    MapThing { x, y: 0, angle: 0, kind: 1, flags: 7, tid: 0 }
}

#[test]
fn select_all_takes_live_slots_of_the_mode() {
    let mut map = MapData::new();
    map.insert_vertex(MapVertex { x: 0, y: 0 });
    map.insert_vertex(MapVertex { x: 8, y: 0 });
    map.insert_vertex(MapVertex { x: 8, y: 8 });
    map.vertices[1] = None;
    map.insert_thing(thing(1));
    map.insert_thing(thing(2));
    assert_eq!(
        select_all(&map, EditMode::Vertices),
        vec![HighlightKind::Vertex(VertexId(0)), HighlightKind::Vertex(VertexId(2))]
    );
    assert_eq!(
        select_all(&map, EditMode::Things),
        vec![HighlightKind::Thing(ThingId(0)), HighlightKind::Thing(ThingId(1))]
    );
    assert_eq!(select_all(&map, EditMode::Sectors), vec![]);
    assert_eq!(select_all(&map, EditMode::Linedefs), vec![]);
}

#[test]
fn groups_give_back_what_was_stored() {
    let mut g = SelectionGroups::new();
    assert_eq!(g.recall(3), None);
    let sel = vec![HighlightKind::Sector(SectorId(4)), HighlightKind::Linedef(LinedefId(1))];
    g.assign(3, &sel);
    assert_eq!(g.recall(3), Some(sel.clone()));
    assert_eq!(g.recall(2), None);
    g.assign(3, &vec![]);
    assert_eq!(g.recall(3), Some(vec![]));
    // Past the last group nothing is stored.
    g.assign(10, &sel);
    assert_eq!(g.recall(10), None);
    g.assign(9, &sel);
    assert_eq!(g.recall(9), Some(sel));
}

#[test]
fn g_key_makes_gradients_or_cycles_grid() {
    let sectors = vec![HighlightKind::Sector(SectorId(0)), HighlightKind::Sector(SectorId(1))];
    assert_eq!(
        g_hotkey_action(EditMode::Sectors, &sectors, false, false),
        GHotkeyAction::Gradient(SectorIntField::Light)
    );
    assert_eq!(
        g_hotkey_action(EditMode::Sectors, &sectors, true, false),
        GHotkeyAction::Gradient(SectorIntField::CeilingHeight)
    );
    assert_eq!(
        g_hotkey_action(EditMode::Sectors, &sectors, true, true),
        GHotkeyAction::Gradient(SectorIntField::FloorHeight)
    );
    assert_eq!(g_hotkey_action(EditMode::Sectors, &vec![], false, false), GHotkeyAction::CycleGrid(1));
    assert_eq!(g_hotkey_action(EditMode::Linedefs, &sectors, true, false), GHotkeyAction::CycleGrid(-1));
}

#[test]
fn map_names_are_cleaned() {
    assert_eq!(clean_map_name(&b"map01".to_vec()), b"MAP01".to_vec());
    assert_eq!(clean_map_name(&b"e1 m1-x_y".to_vec()), b"E1M1X_Y".to_vec());
    assert_eq!(clean_map_name(&b"abcdefghijk".to_vec()), b"ABCDEFGH".to_vec());
    assert_eq!(clean_map_name(&"m\u{e9}p2".as_bytes().to_vec()), b"MP2".to_vec());
    assert_eq!(clean_map_name(&Vec::new()), Vec::<u8>::new());
}

#[test]
fn picked_texture_names_are_padded_and_read_back() {
    let n = texture_name_from(&b"STARTAN3".to_vec());
    assert_eq!(n.0, *b"STARTAN3");
    let short = texture_name_from(&b"FLAT1".to_vec());
    assert_eq!(short.0, [b'F', b'L', b'A', b'T', b'1', 0, 0, 0]);
    assert_eq!(texture_name_bytes(&short), b"FLAT1".to_vec());
    let long = texture_name_from(&b"TOOLONGNAME".to_vec());
    assert_eq!(long.0, *b"TOOLONGN");
}

#[test]
fn selection_summary_counts_each_kind() {
    let sel = vec![
        HighlightKind::Vertex(VertexId(0)),
        HighlightKind::Thing(ThingId(2)),
        HighlightKind::Vertex(VertexId(5)),
        HighlightKind::Sector(SectorId(1)),
    ];
    let c = selection_counts(&sel);
    assert_eq!(c, SelectionCounts { vertices: 2, linedefs: 0, sectors: 1, things: 1 });
    assert_eq!(c.vertices + c.linedefs + c.sectors + c.things, sel.len());
    assert_eq!(selection_counts(&vec![]), SelectionCounts { vertices: 0, linedefs: 0, sectors: 0, things: 0 });
}

#[test]
fn clicks_route_to_drawing_placement_insertion_or_selection() {
    let v = Some(HighlightKind::Vertex(VertexId(1)));
    assert_eq!(click_route(true, true, None, EditMode::Things, false), ClickRoute::Drawing);
    assert_eq!(click_route(false, true, None, EditMode::Things, false), ClickRoute::PlaceThing);
    assert_eq!(click_route(false, false, None, EditMode::Things, false), ClickRoute::Select);
    assert_eq!(click_route(false, false, None, EditMode::Vertices, false), ClickRoute::InsertVertexOnLine);
    assert_eq!(click_route(false, false, None, EditMode::Vertices, true), ClickRoute::Select);
    assert_eq!(click_route(false, true, v, EditMode::Vertices, false), ClickRoute::Select);
}

#[test]
fn clicks_replace_toggle_or_clear_the_selection() {
    let a = HighlightKind::Vertex(VertexId(1));
    let b = HighlightKind::Vertex(VertexId(2));
    let sel = vec![a];
    assert_eq!(click_select(&sel, Some(b), false), vec![b]);
    assert_eq!(click_select(&sel, Some(b), true), vec![a, b]);
    assert_eq!(click_select(&vec![a, b], Some(a), true), vec![b]);
    assert_eq!(click_select(&sel, None, false), vec![]);
    assert_eq!(click_select(&sel, None, true), vec![a]);
    // Shift-clicking twice gives the selection back.
    let once = click_select(&sel, Some(b), true);
    assert_eq!(click_select(&once, Some(b), true), sel);
}
