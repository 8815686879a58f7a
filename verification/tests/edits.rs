// Edits computed from the selection, and the statistics tables.

use doombuilder::editor::{HighlightKind, SectorFieldChange, SectorIntField};
use doombuilder::edits::{
    door_changes, gradient_changes, paste_property_changes, snap_moves, tag_range_changes, transform_moves,
    LinedefSpecialChange, SelectionTransform, ThingMove, VertexMove,
};
use doombuilder::map::{
    LinedefId, MapData, MapLinedef, MapSector, MapSidedef, MapThing, MapVertex, SectorId, TextureName, ThingId,
    VertexId,
};
use doombuilder::mesh::FloorMesh;
use doombuilder::stats::{
    line_stats, map_aabb, map_stats, sector_stats, thing_stats, used_tags, world_aabb, MapStats, TagUse,
};

fn sector(floor: i16, ceil: i16, light: i16, tag: u16) -> MapSector {
    MapSector {
        floor_height: floor,
        ceiling_height: ceil,
        floor_texture: TextureName([0; 8]),
        ceiling_texture: TextureName([0; 8]),
        light,
        special: 0,
        tag,
        sidedefs: Vec::new(),
    }
}

fn line(a: usize, b: usize, right: Option<usize>) -> MapLinedef {
    MapLinedef {
        v1: VertexId(a),
        v2: VertexId(b),
        flags: 0,
        special: 0,
        args: [0; 5],
        tag: 0,
        right: right.map(doombuilder::map::SidedefId),
        left: None,
    }
}

fn square_map() -> MapData {
    let mut map = MapData::new();
    for &(x, y) in &[(0, 0), (64, 0), (64, 64), (0, 64)] {
        map.insert_vertex(MapVertex { x, y });
    }
    let sec = map.insert_sector(sector(0, 128, 192, 0));
    for i in 0..4 {
        let s = map.insert_sidedef(MapSidedef {
            sector: sec,
            x_offset: 0,
            y_offset: 0,
            upper_texture: TextureName([0; 8]),
            lower_texture: TextureName([0; 8]),
            middle_texture: TextureName([0; 8]),
        });
        map.insert_linedef(line(i, (i + 1) % 4, Some(s.0)));
    }
    map
}

#[test]
fn snap_moves_round_half_away_from_zero() {
    let mut map = MapData::new();
    for &(x, y) in &[(3, 5), (12, -13), (16, 16), (-4, 0)] {
        map.insert_vertex(MapVertex { x, y });
    }
    map.insert_linedef(line(1, 2, None));
    let sel = vec![
        HighlightKind::Vertex(VertexId(0)),
        HighlightKind::Linedef(LinedefId(0)),
        HighlightKind::Vertex(VertexId(1)),
        HighlightKind::Vertex(VertexId(3)),
    ];
    assert_eq!(snap_moves(&map, &sel, 8), vec![
        VertexMove { id: VertexId(0), dx: -3, dy: 3 },
        VertexMove { id: VertexId(1), dx: 4, dy: -3 },
        VertexMove { id: VertexId(3), dx: -4, dy: 0 },
    ]);
    // A zero step counts as one: everything is already on the grid.
    assert!(snap_moves(&map, &sel, 0).is_empty());
}

#[test]
fn flips_and_rotations_about_the_centroid() {
    let mut map = MapData::new();
    for &(x, y) in &[(0, 0), (4, 0), (4, 2)] {
        map.insert_vertex(MapVertex { x, y });
    }
    let sel: Vec<HighlightKind> = (0..3).map(|i| HighlightKind::Vertex(VertexId(i))).collect();
    let (vm, tm) = transform_moves(&map, &sel, SelectionTransform::FlipH).expect("selection");
    assert!(tm.is_empty());
    assert_eq!(vm, vec![
        VertexMove { id: VertexId(0), dx: 5, dy: 0 },
        VertexMove { id: VertexId(1), dx: -3, dy: 0 },
        VertexMove { id: VertexId(2), dx: -3, dy: 0 },
    ]);
    let (vm, _) = transform_moves(&map, &sel, SelectionTransform::Rotate90).expect("selection");
    assert_eq!(vm, vec![
        VertexMove { id: VertexId(0), dx: 3, dy: -2 },
        VertexMove { id: VertexId(1), dx: -1, dy: 2 },
        VertexMove { id: VertexId(2), dx: -3, dy: 0 },
    ]);
    assert!(transform_moves(&map, &Vec::new(), SelectionTransform::FlipV).is_none());
    assert!(transform_moves(&map, &vec![HighlightKind::Sector(SectorId(0))], SelectionTransform::FlipV).is_none());
}

#[test]
fn things_flip_with_the_selection() {
    let mut map = MapData::new();
    map.insert_thing(MapThing { x: 10, y: 0, angle: 0, kind: 1, flags: 0, tid: 0 });
    map.insert_thing(MapThing { x: 20, y: 0, angle: 0, kind: 1, flags: 0, tid: 0 });
    let sel = vec![HighlightKind::Thing(ThingId(0)), HighlightKind::Thing(ThingId(1))];
    let (vm, tm) = transform_moves(&map, &sel, SelectionTransform::FlipH).expect("selection");
    assert!(vm.is_empty());
    assert_eq!(tm, vec![ThingMove { id: ThingId(0), dx: 10, dy: 0 }, ThingMove { id: ThingId(1), dx: -10, dy: 0 }]);
}

#[test]
fn gradient_spreads_between_the_ends() {
    let mut map = MapData::new();
    let ids: Vec<SectorId> = [100, 150, 0, 200].iter().map(|&l| map.insert_sector(sector(0, 128, l, 0))).collect();
    let changes = gradient_changes(&map, &ids, SectorIntField::Light).expect("two or more");
    assert_eq!(changes, vec![
        SectorFieldChange { id: ids[1], field: SectorIntField::Light, old: 150, new: 133 },
        SectorFieldChange { id: ids[2], field: SectorIntField::Light, old: 0, new: 167 },
    ]);
    assert!(gradient_changes(&map, &vec![ids[0]], SectorIntField::Light).is_none());
    assert!(gradient_changes(&map, &vec![SectorId(9), ids[0]], SectorIntField::Light).is_none());
}

#[test]
fn tag_range_counts_up_from_start() {
    let mut map = MapData::new();
    let a = map.insert_sector(sector(0, 128, 160, 0));
    let b = map.insert_sector(sector(0, 128, 160, 6));
    let c = map.insert_sector(sector(0, 128, 160, 0));
    let changes = tag_range_changes(&map, &vec![a, b, SectorId(7), c], 5).expect("non-negative");
    assert_eq!(changes, vec![
        SectorFieldChange { id: a, field: SectorIntField::Tag, old: 0, new: 5 },
        SectorFieldChange { id: c, field: SectorIntField::Tag, old: 0, new: 8 },
    ]);
    assert!(tag_range_changes(&map, &vec![a], -1).is_none());
    let top = tag_range_changes(&map, &vec![a, b], 65535).expect("non-negative");
    assert_eq!(top[1], SectorFieldChange { id: b, field: SectorIntField::Tag, old: 6, new: 65535 });
}

#[test]
fn doors_close_and_mark_their_lines() {
    let map = square_map();
    let (secs, lines) = door_changes(&map, &vec![SectorId(0)]);
    assert_eq!(secs, vec![SectorFieldChange { id: SectorId(0), field: SectorIntField::CeilingHeight, old: 128, new: 0 }]);
    let expected: Vec<LinedefSpecialChange> =
        (0..4).map(|i| LinedefSpecialChange { id: LinedefId(i), old: 0, new: 1 }).collect();
    assert_eq!(lines, expected);
    let (secs, lines) = door_changes(&map, &Vec::new());
    assert!(secs.is_empty() && lines.is_empty());
}

#[test]
fn paste_copies_five_fields() {
    let map = square_map();
    let mut src = sector(8, 96, 160, 3);
    src.special = 9;
    let changes = paste_property_changes(&map, &vec![SectorId(0), SectorId(4)], &src);
    assert_eq!(changes.len(), 5);
    assert_eq!(changes[0], SectorFieldChange { id: SectorId(0), field: SectorIntField::FloorHeight, old: 0, new: 8 });
    assert_eq!(changes[3], SectorFieldChange { id: SectorId(0), field: SectorIntField::Special, old: 0, new: 9 });
    assert_eq!(changes[4], SectorFieldChange { id: SectorId(0), field: SectorIntField::Tag, old: 0, new: 3 });
}

#[test]
fn statistics_of_a_small_map() {
    let mut map = square_map();
    let mut special = line(0, 2, None);
    special.special = 11;
    special.tag = 3;
    map.insert_linedef(special);
    map.insert_sector(sector(-16, 64, 100, 3));
    map.insert_sector(sector(24, 200, -20, 5));
    map.insert_thing(MapThing { x: 1, y: 1, angle: 0, kind: 1, flags: 0x07, tid: 7 });
    map.insert_thing(MapThing { x: 2, y: 2, angle: 0, kind: 2, flags: 0x12, tid: 0 });

    let ls = line_stats(&map);
    assert_eq!((ls.one_sided, ls.two_sided, ls.with_special, ls.tagged), (4, 0, 1, 1));
    let ss = sector_stats(&map);
    assert_eq!(ss.count, 3);
    assert_eq!((ss.tagged, ss.unique_tags), (2, 2));
    assert_eq!((ss.light_min, ss.light_max, ss.light_avg), (-20, 192, 90));
    assert_eq!((ss.floor_min, ss.floor_max, ss.ceiling_min, ss.ceiling_max), (-16, 24, 64, 200));
    let ts = thing_stats(&map);
    assert_eq!((ts.count, ts.easy, ts.medium, ts.hard, ts.multiplayer), (2, 1, 2, 1, 1));

    assert_eq!(used_tags(&map), vec![
        TagUse { tag: 3, sectors: 1, lines: 1, things: 0 },
        TagUse { tag: 5, sectors: 1, lines: 0, things: 0 },
        TagUse { tag: 7, sectors: 0, lines: 0, things: 1 },
    ]);
}

#[test]
fn empty_map_statistics() {
    let map = MapData::new();
    let ss = sector_stats(&map);
    assert_eq!(ss.count, 0);
    assert_eq!(ss.light_avg, 0);
    assert_eq!((ss.light_min, ss.light_max), (i32::MAX, i32::MIN));
    assert!(used_tags(&map).is_empty());
}

#[test]
fn bounds_of_the_map_and_the_scene() {
    let map = square_map();
    assert_eq!(map_aabb(&map), Some((0, 0, 64, 64)));
    assert_eq!(map_aabb(&MapData::new()), None);
    let mesh = FloorMesh { positions: vec![[0, 0], [64, 0], [64, 64], [0, 64]], indices: vec![0, 1, 2, 0, 2, 3] };
    let meshes = vec![(SectorId(0), mesh.clone()), (SectorId(5), mesh)];
    assert_eq!(world_aabb(&map, &meshes), Some(([0, 0, -64], [64, 128, 0])));
    assert_eq!(world_aabb(&map, &Vec::new()), None);
}

#[test]
fn map_stats_count_live_slots() {
    let mut map = square_map();
    let before = map_stats(&map);
    map.vertices.push(None);
    map.insert_thing(MapThing { x: 1, y: 1, angle: 0, kind: 1, flags: 7, tid: 0 });
    let after = map_stats(&map);
    assert_eq!(after, MapStats { things: before.things + 1, ..before });
    assert_eq!(map_stats(&MapData::new()), MapStats { vertices: 0, linedefs: 0, sidedefs: 0, sectors: 0, things: 0 });
    assert_eq!(before.vertices, 4);
    assert_eq!(before.linedefs, 4);
}
