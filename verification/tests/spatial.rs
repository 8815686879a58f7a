// The spatial index returns the expected hit for points near vertices, on
// linedefs and inside the sector polygon. Positions are given in map units
// and converted to the index's fixed-point steps.

use doombuilder::editor::{EditMode, HighlightKind};
use doombuilder::loops::{extract_sector_loops, SectorLoops};
use doombuilder::map::{
    MapData, MapLinedef, MapSector, MapSidedef, MapThing, MapVertex, SectorId, TextureName, ThingId,
    VertexId,
};
use doombuilder::mesh::{constraint_segments, keep_inner_faces, prepare_sector, Face, FloorMesh};
use doombuilder::spatial::{Hit, SpatialIndex, SUBUNITS};
use spade::{ConstrainedDelaunayTriangulation, Point2, Triangulation};

fn fx(v: f32) -> i64 {
    (v * SUBUNITS as f32).round() as i64
}

fn square_map() -> (MapData, [VertexId; 4]) {
    let mut map = MapData::new();
    let v0 = map.insert_vertex(MapVertex { x: 0, y: 0 });
    let v1 = map.insert_vertex(MapVertex { x: 64, y: 0 });
    let v2 = map.insert_vertex(MapVertex { x: 64, y: 64 });
    let v3 = map.insert_vertex(MapVertex { x: 0, y: 64 });

    let sec = map.insert_sector(MapSector {
        floor_height: 0,
        ceiling_height: 128,
        floor_texture: TextureName([0; 8]),
        ceiling_texture: TextureName([0; 8]),
        light: 192,
        special: 0,
        tag: 0,
        sidedefs: Vec::new(),
    });
    let mk_side = |map: &mut MapData| {
        map.insert_sidedef(MapSidedef {
            sector: sec,
            x_offset: 0,
            y_offset: 0,
            upper_texture: TextureName([0; 8]),
            lower_texture: TextureName([0; 8]),
            middle_texture: TextureName([0; 8]),
        })
    };
    let s0 = mk_side(&mut map);
    let s1 = mk_side(&mut map);
    let s2 = mk_side(&mut map);
    let s3 = mk_side(&mut map);
    let mk_line = |a: VertexId, b: VertexId, side| MapLinedef {
        v1: a,
        v2: b,
        flags: 0,
        special: 0,
        args: [0; 5],
        tag: 0,
        right: Some(side),
        left: None,
    };
    map.insert_linedef(mk_line(v0, v1, s0));
    map.insert_linedef(mk_line(v1, v2, s1));
    map.insert_linedef(mk_line(v2, v3, s2));
    map.insert_linedef(mk_line(v3, v0, s3));
    (map, [v0, v1, v2, v3])
}

fn triangulate_sector(map: &MapData, loops: &SectorLoops) -> Option<FloorMesh> {
    let (positions, local) = prepare_sector(map, loops).ok()?;
    let mut cdt: ConstrainedDelaunayTriangulation<Point2<f64>> = ConstrainedDelaunayTriangulation::new();
    let mut handles = Vec::new();
    for p in &positions {
        handles.push(cdt.insert(Point2::new(p[0] as f64, p[1] as f64)).ok()?);
    }
    for (a, b) in constraint_segments(&local) {
        if cdt.can_add_constraint(handles[a], handles[b]) {
            cdt.add_constraint(handles[a], handles[b]);
        }
    }
    let faces: Vec<Face> = cdt
        .inner_faces()
        .map(|f| {
            let p = f.positions();
            (
                [p[0].x as i32, p[0].y as i32],
                [p[1].x as i32, p[1].y as i32],
                [p[2].x as i32, p[2].y as i32],
            )
        })
        .collect();
    Some(keep_inner_faces(&local, positions, &faces))
}

fn build_index(map: &MapData) -> SpatialIndex {
    let loops = extract_sector_loops(map);
    let meshes: Vec<(SectorId, FloorMesh)> = loops
        .iter()
        .filter_map(|(sid, l)| triangulate_sector(map, l).map(|m| (*sid, m)))
        .collect();
    SpatialIndex::build(map, meshes)
}

#[test]
fn nearest_vertex_within_radius() {
    let (map, ids) = square_map();
    let idx = build_index(&map);
    let hit = idx.nearest_vertex(fx(2.0), fx(1.0), fx(4.0)).expect("vertex hit");
    assert_eq!(hit, ids[0]);
}

#[test]
fn no_vertex_when_outside_radius() {
    let (map, _) = square_map();
    let idx = build_index(&map);
    assert!(idx.nearest_vertex(fx(32.0), fx(32.0), fx(4.0)).is_none());
}

#[test]
fn linedef_hit_at_midpoint() {
    let (map, _) = square_map();
    let idx = build_index(&map);
    // (32, 0) is the midpoint of the bottom edge.
    assert!(idx.nearest_linedef(fx(32.0), fx(0.5), fx(2.0)).is_some());
}

#[test]
fn sector_hit_inside_polygon() {
    let (map, _) = square_map();
    let idx = build_index(&map);
    assert!(idx.sector_at(fx(32.0), fx(32.0)).is_some());
    assert!(idx.sector_at(fx(-10.0), fx(-10.0)).is_none());
}

#[test]
fn vertices_in_rect_returns_contained_only() {
    let (map, ids) = square_map();
    let idx = build_index(&map);
    let inside = idx.vertices_in_rect([fx(-1.0), fx(-1.0)], [fx(10.0), fx(10.0)]);
    assert_eq!(inside.len(), 1);
    assert_eq!(inside[0], ids[0]);

    let all = idx.vertices_in_rect([fx(-1.0), fx(-1.0)], [fx(65.0), fx(65.0)]);
    assert_eq!(all.len(), 4);
}

#[test]
fn linedefs_in_rect_requires_both_endpoints() {
    let (map, _) = square_map();
    let idx = build_index(&map);
    // Only the bottom edge has both endpoints in this rect.
    let lines = idx.linedefs_in_rect([fx(-1.0), fx(-1.0)], [fx(65.0), fx(1.0)]);
    assert_eq!(lines.len(), 1);
    // Whole map: 4 linedefs.
    let all = idx.linedefs_in_rect([fx(-1.0), fx(-1.0)], [fx(65.0), fx(65.0)]);
    assert_eq!(all.len(), 4);
    // Box that only clips one endpoint of any line: 0.
    let none = idx.linedefs_in_rect([fx(-100.0), fx(-100.0)], [fx(-1.0), fx(-1.0)]);
    assert_eq!(none.len(), 0);
}

#[test]
fn hit_priority_vertex_over_linedef_over_sector() {
    let (map, ids) = square_map();
    let idx = build_index(&map);
    // Right at corner (0,0): vertex wins.
    match idx.hit_test(fx(0.5), fx(0.5), fx(4.0), fx(4.0)) {
        Some(Hit::Vertex(v)) => assert_eq!(v, ids[0]),
        other => panic!("expected vertex hit, got {other:?}"),
    }
    // Just inside the bottom edge: linedef wins over sector.
    assert!(matches!(idx.hit_test(fx(32.0), fx(0.5), fx(2.0), fx(2.0)), Some(Hit::Linedef(_))));
    // Deep in the middle: sector.
    assert!(matches!(idx.hit_test(fx(32.0), fx(32.0), fx(2.0), fx(2.0)), Some(Hit::Sector(_))));
}

#[test]
fn nearest_linedef_picks_the_closer_edge() {
    let (map, _) = square_map();
    let idx = build_index(&map);
    // Nearer the bottom edge (line 0) than the left edge (line 3).
    let l = idx.nearest_linedef(fx(3.0), fx(1.0), fx(8.0)).expect("edge");
    assert_eq!(l.0, 0);
    // Nearer the left edge.
    let l = idx.nearest_linedef(fx(1.0), fx(3.0), fx(8.0)).expect("edge");
    assert_eq!(l.0, 3);
    // Beyond the end of the bottom edge, the distance is to its end point.
    assert!(idx.nearest_linedef(fx(70.0), fx(-3.0), fx(6.0)).is_none());
    assert!(idx.nearest_linedef(fx(68.0), fx(-3.0), fx(6.0)).is_some());
}

#[test]
fn things_win_over_vertices() {
    let (mut map, _) = square_map();
    let t = map.insert_thing(MapThing { x: 4, y: 4, angle: 0, kind: 1, flags: 7, tid: 0 });
    let idx = build_index(&map);
    match idx.hit_test(fx(1.0), fx(1.0), fx(8.0), fx(8.0)) {
        Some(Hit::Thing(id)) => assert_eq!(id, t),
        other => panic!("expected thing hit, got {other:?}"),
    }
    assert_eq!(idx.nearest_thing(fx(20.0), fx(20.0), fx(24.0)), Some(ThingId(0)));
    assert!(idx.nearest_thing(fx(40.0), fx(40.0), fx(24.0)).is_none());
    assert!(idx.hit_test(fx(-100.0), fx(-100.0), fx(4.0), fx(4.0)).is_none());
}

#[test]
fn nested_sectors_pick_the_smaller_area() {
    let (mut map, _) = square_map();
    let outer_mesh = FloorMesh { positions: vec![[0, 0], [64, 0], [64, 64], [0, 64]], indices: vec![0, 1, 2, 0, 2, 3] };
    let inner_mesh = FloorMesh { positions: vec![[16, 16], [48, 16], [48, 48], [16, 48]], indices: vec![0, 1, 2, 0, 2, 3] };
    let inner = map.insert_sector(MapSector {
        floor_height: 8,
        ceiling_height: 128,
        floor_texture: TextureName([0; 8]),
        ceiling_texture: TextureName([0; 8]),
        light: 160,
        special: 0,
        tag: 0,
        sidedefs: Vec::new(),
    });
    let idx = SpatialIndex::build(&map, vec![(SectorId(0), outer_mesh), (inner, inner_mesh)]);
    assert_eq!(idx.sector_at(fx(32.0), fx(32.0)), Some(inner));
    assert_eq!(idx.sector_at(fx(8.0), fx(8.0)), Some(SectorId(0)));
}

#[test]
fn hit_for_mode_follows_the_edit_mode() {
    let (map, ids) = square_map();
    let idx = build_index(&map);
    assert_eq!(idx.hit_for_mode(EditMode::Vertices, fx(1.0), fx(1.0), fx(4.0), fx(4.0)), Some(HighlightKind::Vertex(ids[0])));
    assert!(matches!(idx.hit_for_mode(EditMode::Linedefs, fx(32.0), fx(1.0), fx(4.0), fx(4.0)), Some(HighlightKind::Linedef(_))));
    assert!(matches!(idx.hit_for_mode(EditMode::Sectors, fx(1.0), fx(1.0), fx(4.0), fx(4.0)), Some(HighlightKind::Sector(_))));
    assert_eq!(idx.hit_for_mode(EditMode::Things, fx(1.0), fx(1.0), fx(4.0), fx(4.0)), None);
}

#[test]
fn hits_convert_to_selection_entries() {
    let h: HighlightKind = Hit::Vertex(VertexId(3)).into();
    assert_eq!(h, HighlightKind::Vertex(VertexId(3)));
    let t: HighlightKind = Hit::Thing(ThingId(2)).into();
    assert_eq!(t, HighlightKind::Thing(ThingId(2)));
    let s: HighlightKind = HighlightKind::from(Hit::Sector(SectorId(1)));
    assert_eq!(s, HighlightKind::Sector(SectorId(1)));
}

#[test]
fn rect_select_by_mode_and_shift() {
    let (mut map, ids) = square_map();
    let t = map.insert_thing(MapThing { x: 32, y: 8, angle: 0, kind: 1, flags: 7, tid: 0 });
    let idx = build_index(&map);
    let (lo, hi) = ([fx(-1.0), fx(-1.0)], [fx(40.0), fx(10.0)]);
    let base = vec![HighlightKind::Vertex(ids[2])];
    let v = idx.rect_select(EditMode::Vertices, lo, hi, &base, false);
    assert_eq!(v, vec![HighlightKind::Vertex(ids[0])]);
    let mut v = idx.rect_select(EditMode::Vertices, lo, hi, &base, true);
    v.sort_by_key(|h| match h {
        HighlightKind::Vertex(id) => id.0,
        _ => usize::MAX,
    });
    assert_eq!(v, vec![HighlightKind::Vertex(ids[0]), HighlightKind::Vertex(ids[2])]);
    // Shift-dragging over what is already selected adds nothing twice.
    let again = idx.rect_select(EditMode::Vertices, lo, hi, &vec![HighlightKind::Vertex(ids[0])], true);
    assert_eq!(again, vec![HighlightKind::Vertex(ids[0])]);
    assert_eq!(idx.rect_select(EditMode::Things, lo, hi, &vec![], false), vec![HighlightKind::Thing(t)]);
    assert_eq!(idx.rect_select(EditMode::Linedefs, lo, hi, &vec![], false), vec![]);
    let wide = idx.rect_select(EditMode::Linedefs, [fx(-1.0), fx(-1.0)], [fx(65.0), fx(1.0)], &vec![], false);
    assert_eq!(wide.len(), 1);
    assert_eq!(idx.rect_select(EditMode::Sectors, lo, hi, &base, false), vec![]);
    assert_eq!(idx.rect_select(EditMode::Sectors, lo, hi, &base, true), base);
}

#[test]
fn thin_sector_beats_a_smaller_box_of_larger_area() {
    let (mut map, _) = square_map();
    let sec = |map: &mut MapData| {
        map.insert_sector(MapSector {
            floor_height: 0,
            ceiling_height: 128,
            floor_texture: TextureName([0; 8]),
            ceiling_texture: TextureName([0; 8]),
            light: 160,
            special: 0,
            tag: 0,
            sidedefs: Vec::new(),
        })
    };
    let thin = sec(&mut map);
    let square = sec(&mut map);
    // Area 50 inside a 100 x 100 box, against area 400 inside a 20 x 20 box.
    let thin_mesh = FloorMesh { positions: vec![[0, 0], [100, 100], [100, 99]], indices: vec![0, 1, 2] };
    let square_mesh = FloorMesh { positions: vec![[40, 40], [60, 40], [60, 60], [40, 60]], indices: vec![0, 1, 2, 0, 2, 3] };
    let idx = SpatialIndex::build(&map, vec![(thin, thin_mesh), (square, square_mesh)]);
    assert_eq!(idx.sector_at(fx(50.0), fx(49.75)), Some(thin));
    assert_eq!(idx.sector_at(fx(45.0), fx(55.0)), Some(square));
}

#[test]
fn rect_queries_list_each_id_once() {
    let (map, _) = square_map();
    let idx = build_index(&map);
    let mut vs = idx.vertices_in_rect([fx(-1.0), fx(-1.0)], [fx(65.0), fx(65.0)]);
    assert_eq!(vs.len(), 4);
    vs.sort_by_key(|v| v.0);
    vs.dedup();
    assert_eq!(vs.len(), 4);
    let mut ls = idx.linedefs_in_rect([fx(-1.0), fx(-1.0)], [fx(65.0), fx(65.0)]);
    assert_eq!(ls.len(), 4);
    ls.sort_by_key(|l| l.0);
    ls.dedup();
    assert_eq!(ls.len(), 4);
}
