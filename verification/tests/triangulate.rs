// Loop extraction and triangulation of a single square sector.

use doombuilder::loops::{extract_sector_loops, walk_loops, Edge, SectorLoops};
use doombuilder::map::{
    MapData, MapLinedef, MapSector, MapSidedef, MapVertex, SectorId, TextureName, VertexId,
};
use doombuilder::mesh::{constraint_segments, keep_inner_faces, prepare_sector, Face, FloorMesh, MeshError};
use spade::{ConstrainedDelaunayTriangulation, Point2, Triangulation};

fn square_map() -> MapData {
    let mut map = MapData::new();
    let v0 = map.insert_vertex(MapVertex { x: 0, y: 0 });
    let v1 = map.insert_vertex(MapVertex { x: 64, y: 0 });
    let v2 = map.insert_vertex(MapVertex { x: 64, y: 64 });
    let v3 = map.insert_vertex(MapVertex { x: 0, y: 64 });

    let sec = map.insert_sector(MapSector {
        floor_height: 0,
        ceiling_height: 128,
        floor_texture: TextureName(*b"FLAT1\0\0\0"),
        ceiling_texture: TextureName(*b"FLAT2\0\0\0"),
        light: 192,
        special: 0,
        tag: 0,
        sidedefs: Vec::new(),
    });

    let make_side = |map: &mut MapData, sec: SectorId| {
        map.insert_sidedef(MapSidedef {
            sector: sec,
            x_offset: 0,
            y_offset: 0,
            upper_texture: TextureName([0; 8]),
            lower_texture: TextureName([0; 8]),
            middle_texture: TextureName(*b"WALL\0\0\0\0"),
        })
    };
    let s0 = make_side(&mut map, sec);
    let s1 = make_side(&mut map, sec);
    let s2 = make_side(&mut map, sec);
    let s3 = make_side(&mut map, sec);

    let mk_line = |a: VertexId, b: VertexId, side| MapLinedef {
        v1: a,
        v2: b,
        flags: 0,
        special: 0,
        args: [0; 5],
        tag: 0,
        right: Some(side),
        left: None,
    };
    map.insert_linedef(mk_line(v0, v1, s0));
    map.insert_linedef(mk_line(v1, v2, s1));
    map.insert_linedef(mk_line(v2, v3, s2));
    map.insert_linedef(mk_line(v3, v0, s3));
    map
}

/// Constrained Delaunay triangulation of the sector's loops, keeping the
/// faces inside it.
fn triangulate_sector(map: &MapData, loops: &SectorLoops) -> Result<FloorMesh, MeshError> {
    let (positions, local) = prepare_sector(map, loops)?;
    let mut cdt: ConstrainedDelaunayTriangulation<Point2<f64>> = ConstrainedDelaunayTriangulation::new();
    let mut handles = Vec::new();
    for p in &positions {
        handles.push(cdt.insert(Point2::new(p[0] as f64, p[1] as f64)).expect("finite point"));
    }
    for (a, b) in constraint_segments(&local) {
        if cdt.can_add_constraint(handles[a], handles[b]) {
            cdt.add_constraint(handles[a], handles[b]);
        }
    }
    let faces: Vec<Face> = cdt
        .inner_faces()
        .map(|f| {
            let p = f.positions();
            (
                [p[0].x as i32, p[0].y as i32],
                [p[1].x as i32, p[1].y as i32],
                [p[2].x as i32, p[2].y as i32],
            )
        })
        .collect();
    Ok(keep_inner_faces(&local, positions, &faces))
}

#[test]
fn extracts_single_square_loop() {
    let map = square_map();
    let by_sector = extract_sector_loops(&map);
    assert_eq!(by_sector.len(), 1);
    let (_, loops) = by_sector.iter().next().unwrap();
    assert_eq!(loops.loops.len(), 1);
    assert_eq!(loops.loops[0].len(), 4);
    assert!(loops.orphan_edges.is_empty());
}

#[test]
fn triangulates_square_to_two_triangles() {
    let map = square_map();
    let by_sector = extract_sector_loops(&map);
    let (_, loops) = by_sector.iter().next().unwrap();
    let mesh = triangulate_sector(&map, loops).unwrap();

    assert_eq!(mesh.positions.len(), 4);
    assert_eq!(mesh.indices.len(), 6, "two triangles -> 6 indices");

    for &i in &mesh.indices {
        assert!((i as usize) < mesh.positions.len());
    }
}

#[test]
fn square_loop_follows_linedef_order() {
    let map = square_map();
    let by_sector = extract_sector_loops(&map);
    let (sid, loops) = &by_sector[0];
    assert_eq!(*sid, SectorId(0));
    assert_eq!(loops.loops[0], vec![VertexId(0), VertexId(1), VertexId(2), VertexId(3)]);
}

#[test]
fn sector_without_loops_is_refused() {
    let map = square_map();
    let empty = SectorLoops { loops: Vec::new(), orphan_edges: Vec::new() };
    assert!(matches!(prepare_sector(&map, &empty), Err(MeshError::NoLoops)));
}

#[test]
fn loop_through_missing_vertex_is_refused() {
    let map = square_map();
    let bad = SectorLoops {
        loops: vec![vec![VertexId(0), VertexId(1), VertexId(9)]],
        orphan_edges: Vec::new(),
    };
    assert!(matches!(prepare_sector(&map, &bad), Err(MeshError::MissingVertex(VertexId(9)))));
}

#[test]
fn constraint_segments_close_each_loop() {
    let segs = constraint_segments(&vec![vec![0, 1, 2, 3], vec![4, 5]]);
    assert_eq!(segs, vec![(0, 1), (1, 2), (2, 3), (3, 0)]);
}

#[test]
fn faces_outside_the_polygon_are_dropped() {
    // An L-shaped region: the triangle over the notch must go.
    let positions = vec![[0, 0], [64, 0], [64, 32], [32, 32], [32, 64], [0, 64]];
    let loops = vec![vec![0, 1, 2, 3, 4, 5]];
    let inside: Face = ([0, 0], [64, 0], [32, 32]);
    let notch: Face = ([64, 32], [32, 64], [32, 32]);
    let mesh = keep_inner_faces(&loops, positions, &vec![inside, notch]);
    assert_eq!(mesh.indices, vec![0, 1, 3]);
}

#[test]
fn sectors_without_edges_get_empty_entries() {
    let mut map = square_map();
    let lonely = map.insert_sector(MapSector {
        floor_height: 0,
        ceiling_height: 64,
        floor_texture: TextureName([0; 8]),
        ceiling_texture: TextureName([0; 8]),
        light: 128,
        special: 0,
        tag: 0,
        sidedefs: Vec::new(),
    });
    let by_sector = extract_sector_loops(&map);
    assert_eq!(by_sector.len(), 2);
    assert_eq!(by_sector[0].0, SectorId(0));
    assert_eq!(by_sector[1].0, lonely);
    assert!(by_sector[1].1.loops.is_empty() && by_sector[1].1.orphan_edges.is_empty());
    let only = {
        let mut m = MapData::new();
        m.insert_sector(MapSector {
            floor_height: 0,
            ceiling_height: 64,
            floor_texture: TextureName([0; 8]),
            ceiling_texture: TextureName([0; 8]),
            light: 128,
            special: 0,
            tag: 0,
            sidedefs: Vec::new(),
        });
        m
    };
    let r = extract_sector_loops(&only);
    assert_eq!(r.len(), 1);
    assert_eq!(r[0].0, SectorId(0));
}

#[test]
fn every_edge_lands_in_one_loop_or_the_orphans() {
    let e = |a: usize, b: usize| Edge { a: VertexId(a), b: VertexId(b) };
    let edges = vec![e(0, 1), e(1, 2), e(2, 3), e(3, 0), e(1, 5)];
    let sl = walk_loops(&edges);
    assert_eq!(sl.loops, vec![vec![VertexId(0), VertexId(1), VertexId(2), VertexId(3)]]);
    assert_eq!(sl.orphan_edges, vec![(VertexId(1), VertexId(5))]);
    let used: usize = sl.loops.iter().map(|l| l.len()).sum::<usize>() + sl.orphan_edges.len();
    assert_eq!(used, edges.len());
}
