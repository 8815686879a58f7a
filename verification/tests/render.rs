// Walls, sector fills, 3D texture batches, line chains and launch arguments.

use doombuilder::batches::{
    flat_key, flatten_batches, is_sky, key, sprite_candidates, wall_texture_name, DrawBatch,
};
use doombuilder::chains::order_line_chain;
use doombuilder::fill::{
    brightness_color, rasterise_sector_fill, rasterise_sector_fill_slot, rasterise_sector_solid, FillSlot,
    FlatImage,
};
use doombuilder::launch::warp_args_for;
use doombuilder::map::{
    LinedefId, MapData, MapLinedef, MapSector, MapSidedef, MapVertex, SectorId, SidedefId, TextureName,
    VertexId,
};
use doombuilder::mesh::{point_inside_loops, FloorMesh};
use doombuilder::walls::{build_walls, Wall, WallKind};

fn name(s: &str) -> TextureName {
    let mut b = [0u8; 8];
    b[..s.len()].copy_from_slice(s.as_bytes());
    TextureName(b)
}

fn square_map() -> MapData {
    let mut map = MapData::new();
    let v: Vec<VertexId> = [(0, 0), (64, 0), (64, 64), (0, 64)]
        .iter()
        .map(|&(x, y)| map.insert_vertex(MapVertex { x, y }))
        .collect();
    let sec = map.insert_sector(MapSector {
        floor_height: 0,
        ceiling_height: 128,
        floor_texture: name("flat1"),
        ceiling_texture: name("FLAT2"),
        light: 192,
        special: 0,
        tag: 0,
        sidedefs: Vec::new(),
    });
    for i in 0..4 {
        let s = map.insert_sidedef(MapSidedef {
            sector: sec,
            x_offset: 0,
            y_offset: 0,
            upper_texture: name("UP"),
            lower_texture: name("LOW"),
            middle_texture: name("WALL"),
        });
        map.insert_linedef(MapLinedef {
            v1: v[i],
            v2: v[(i + 1) % 4],
            flags: 0,
            special: 0,
            args: [0; 5],
            tag: 0,
            right: Some(s),
            left: None,
        });
    }
    map
}

fn square_mesh() -> FloorMesh {
    FloorMesh { positions: vec![[0, 0], [64, 0], [64, 64], [0, 64]], indices: vec![0, 1, 2, 0, 2, 3] }
}

#[test]
fn one_sided_lines_make_solid_walls() {
    let map = square_map();
    let walls = build_walls(&map);
    assert_eq!(walls.len(), 4);
    for (i, w) in walls.iter().enumerate() {
        assert_eq!(w.kind, WallKind::Solid);
        assert_eq!(w.facing_sector, SectorId(0));
        assert_eq!(w.sidedef, SidedefId(i));
    }
    assert_eq!(walls[0].quad, [[0, 0, 0], [64, 0, 0], [64, 0, 128], [0, 0, 128]]);
}

#[test]
fn two_sided_line_makes_steps() {
    let mut map = square_map();
    let high = map.insert_sector(MapSector {
        floor_height: 24,
        ceiling_height: 96,
        floor_texture: name("FLAT1"),
        ceiling_texture: name("FLAT1"),
        light: 160,
        special: 0,
        tag: 0,
        sidedefs: Vec::new(),
    });
    let back = map.insert_sidedef(MapSidedef {
        sector: high,
        x_offset: 0,
        y_offset: 0,
        upper_texture: name("UP"),
        lower_texture: name("LOW"),
        middle_texture: name("-"),
    });
    if let Some(Some(l)) = map.linedefs.get_mut(0) {
        l.left = Some(back);
    }
    let walls: Vec<Wall> = build_walls(&map);
    // Line 0 now gives a lower wall and an upper wall, both seen from the
    // lower-ceilinged, higher-floored back sector.
    assert_eq!(walls.len(), 5);
    assert_eq!(walls[0].kind, WallKind::Lower);
    assert_eq!(walls[0].facing_sector, high);
    assert_eq!(walls[0].sidedef, back);
    assert_eq!(walls[0].quad, [[64, 0, 0], [0, 0, 0], [0, 0, 24], [64, 0, 24]]);
    assert_eq!(walls[1].kind, WallKind::Upper);
    assert_eq!(walls[1].facing_sector, high);
    assert_eq!(walls[1].quad, [[64, 0, 96], [0, 0, 96], [0, 0, 128], [64, 0, 128]]);
    assert_eq!(wall_texture_name(&map, &walls[0]).0, *b"LOW\0\0\0\0\0");
    assert_eq!(wall_texture_name(&map, &walls[1]).0, *b"UP\0\0\0\0\0\0");
}

#[test]
fn brightness_matches_the_float_formula() {
    for light in -10i16..300 {
        let l = (light.clamp(0, 255) as f32) / 255.0;
        let expected = [(l * 255.0) as u8, (l * 245.0) as u8, (l * 215.0) as u8, 255];
        assert_eq!(brightness_color(light), expected, "light {light}");
    }
    assert_eq!(brightness_color(255), [255, 245, 215, 255]);
    assert_eq!(brightness_color(0), [0, 0, 0, 255]);
}

#[test]
fn solid_fill_covers_the_square() {
    let fill = rasterise_sector_solid(SectorId(0), &square_mesh(), [10, 20, 30, 255]).expect("fill");
    assert_eq!((fill.width, fill.height), (64, 64));
    assert_eq!(fill.origin_world, (0, 64));
    assert_eq!(fill.rgba.len(), 64 * 64 * 4);
    assert!(fill.rgba.chunks(4).all(|p| p == [10, 20, 30, 255]));
    let empty = FloorMesh { positions: vec![[0, 0]], indices: Vec::new() };
    assert!(rasterise_sector_solid(SectorId(0), &empty, [1, 2, 3, 4]).is_none());
}

#[test]
fn solid_fill_of_a_triangle_leaves_the_rest_clear() {
    let tri = FloorMesh { positions: vec![[0, 0], [8, 0], [0, 8]], indices: vec![0, 1, 2] };
    let fill = rasterise_sector_solid(SectorId(0), &tri, [9, 9, 9, 9]).expect("fill");
    assert_eq!((fill.width, fill.height), (8, 8));
    // Bottom-left pixel (world (0, 0)) is the last row of the image.
    let at = |ix: usize, iy: usize| &fill.rgba[(iy * 8 + ix) * 4..(iy * 8 + ix) * 4 + 4];
    assert_eq!(at(0, 7), [9, 9, 9, 9]);
    assert_eq!(at(7, 0), [0, 0, 0, 0]);
    assert_eq!(at(3, 4), [9, 9, 9, 9]);
}

#[test]
fn textured_fill_tiles_the_flat() {
    let map = square_map();
    let flat: Vec<u8> = (0..64 * 64 * 4).map(|i| (i % 251) as u8).collect();
    let flats = vec![FlatImage { name: b"FLAT1".to_vec(), rgba: flat.clone() }];
    let fill = rasterise_sector_fill(&map, SectorId(0), &square_mesh(), &flats).expect("fill");
    assert_eq!((fill.width, fill.height), (64, 64));
    // The square spans one 64x64 tile exactly, top row first.
    assert_eq!(fill.rgba, flat);
    // No flat called FLAT2 is loaded.
    assert!(rasterise_sector_fill_slot(&map, SectorId(0), &square_mesh(), &flats, FillSlot::Ceiling).is_none());
    // Gone sector.
    assert!(rasterise_sector_fill(&map, SectorId(5), &square_mesh(), &flats).is_none());
}

#[test]
fn texture_keys() {
    assert_eq!(key(&b"wall\0\0".to_vec()), b"WALL".to_vec());
    assert_eq!(key(&b"-".to_vec()), b"__missing__".to_vec());
    assert_eq!(key(&b"\0\0".to_vec()), b"__missing__".to_vec());
    assert_eq!(flat_key(&name("f_sky1")), b"__sky__".to_vec());
    assert_eq!(flat_key(&name("flat5_4")), b"FLAT5_4".to_vec());
    assert_eq!(flat_key(&TextureName([0; 8])), b"__missing__".to_vec());
    assert!(is_sky(&name("F_SKY1")));
    assert!(!is_sky(&name("F_SKY2")));
}

#[test]
fn batches_sorted_by_key_and_contiguous() {
    let buckets: Vec<(Vec<u8>, Vec<u32>)> = vec![
        (b"WALL".to_vec(), vec![1, 2, 3]),
        (b"ABC".to_vec(), vec![]),
        (b"AAA".to_vec(), vec![4]),
        (b"__sky__".to_vec(), vec![5, 6]),
    ];
    let (verts, batches): (Vec<u32>, Vec<DrawBatch>) = flatten_batches(&buckets);
    assert_eq!(verts, vec![4, 1, 2, 3, 5, 6]);
    let summary: Vec<(Vec<u8>, u32, u32)> =
        batches.iter().map(|b| (b.texture_name.clone(), b.start, b.count)).collect();
    assert_eq!(summary, vec![
        (b"AAA".to_vec(), 0, 1),
        (b"WALL".to_vec(), 1, 3),
        (b"__sky__".to_vec(), 4, 2),
    ]);
    let (v, b) = flatten_batches::<u32>(&Vec::new());
    assert!(v.is_empty() && b.is_empty());
}

#[test]
fn line_chain_orders_vertices() {
    let map = square_map();
    let path = order_line_chain(&map, &vec![LinedefId(1), LinedefId(0), LinedefId(2)]).expect("chain");
    assert_eq!(path, vec![VertexId(0), VertexId(1), VertexId(2), VertexId(3)]);
    // A closed loop has no ends.
    assert!(order_line_chain(&map, &vec![LinedefId(0), LinedefId(1), LinedefId(2), LinedefId(3)]).is_none());
    // Two separate lines have four ends.
    assert!(order_line_chain(&map, &vec![LinedefId(0), LinedefId(2)]).is_none());
    // A missing line.
    assert!(order_line_chain(&map, &vec![LinedefId(0), LinedefId(7)]).is_none());
    // A single line is its own chain.
    assert_eq!(order_line_chain(&map, &vec![LinedefId(3)]), Some(vec![VertexId(3), VertexId(0)]));
}

#[test]
fn warp_arguments_from_map_names() {
    let s = |v: &[&str]| Some(v.iter().map(|x| x.to_string()).collect::<Vec<String>>());
    assert_eq!(warp_args_for("E1M2"), s(&["-warp", "1", "2"]));
    assert_eq!(warp_args_for("e4m9"), s(&["-warp", "4", "9"]));
    assert_eq!(warp_args_for("MAP07"), s(&["-warp", "7"]));
    assert_eq!(warp_args_for("map31"), s(&["-warp", "31"]));
    assert_eq!(warp_args_for("MAP+5"), s(&["-warp", "5"]));
    assert_eq!(warp_args_for("MAP4294967295"), s(&["-warp", "4294967295"]));
    assert_eq!(warp_args_for("MAP4294967296"), None);
    assert_eq!(warp_args_for("MAP"), None);
    assert_eq!(warp_args_for("MAP-1"), None);
    assert_eq!(warp_args_for("EXMY"), None);
    assert_eq!(warp_args_for("E1M"), None);
    assert_eq!(warp_args_for("START"), None);
}

#[test]
fn even_odd_inside_test() {
    let positions = vec![[0, 0], [64, 0], [64, 64], [0, 64], [16, 16], [48, 16], [48, 48], [16, 48]];
    let loops = vec![vec![0, 1, 2, 3], vec![4, 5, 6, 7]];
    // Coordinates are tripled centroids: (8, 8) is in the ring.
    assert!(point_inside_loops(&loops, &positions, 24, 24));
    // (32, 32) is in the hole.
    assert!(!point_inside_loops(&loops, &positions, 96, 96));
    // (-8, 8) is outside.
    assert!(!point_inside_loops(&loops, &positions, -24, 24));
}

#[test]
fn sprite_candidates_follow_rotation_frames() {
    let got = sprite_candidates(&b"troo".to_vec()).unwrap();
    assert_eq!(
        got,
        vec![b"TROO".to_vec(), b"TROOA0".to_vec(), b"TROOA1".to_vec(), b"TROOA2".to_vec()]
    );
    let long = sprite_candidates(&b"possa1".to_vec()).unwrap();
    assert_eq!(long[0], b"POSSA1".to_vec());
    assert_eq!(long[1], b"POSSA0".to_vec());
    assert_eq!(sprite_candidates(&Vec::new()), None);
}

#[test]
fn walls_skip_lines_with_a_missing_vertex() {
    let mut map = square_map();
    map.remove_vertex(VertexId(0));
    let walls = build_walls(&map);
    // Lines 0 and 3 touch the removed vertex; lines 1 and 2 still stand.
    assert_eq!(walls.len(), 2);
    assert_eq!(walls[0].sidedef, SidedefId(1));
    assert_eq!(walls[1].sidedef, SidedefId(2));
    for w in &walls {
        assert_eq!(map.side_sector_of(Some(w.sidedef)), Some(w.facing_sector));
    }
}

#[test]
fn line_chain_visits_each_vertex_once() {
    let map = square_map();
    let path = order_line_chain(&map, &vec![LinedefId(3), LinedefId(2)]).expect("chain");
    assert_eq!(path.len(), 3);
    for i in 0..path.len() {
        for j in (i + 1)..path.len() {
            assert_ne!(path[i], path[j]);
        }
    }
    assert_eq!(path, vec![VertexId(0), VertexId(3), VertexId(2)]);
}

#[test]
fn line_chain_needs_connected_lines() {
    let mut map = square_map();
    let a = map.insert_vertex(MapVertex { x: 200, y: 0 });
    let b = map.insert_vertex(MapVertex { x: 300, y: 0 });
    let l = map.insert_linedef(MapLinedef {
        v1: a,
        v2: b,
        flags: 0,
        special: 0,
        args: [0; 5],
        tag: 0,
        right: None,
        left: None,
    });
    // A closed square and a separate line: two ends, no vertex on more than
    // two lines, but not one connected chain.
    let sel = vec![LinedefId(0), LinedefId(1), LinedefId(2), LinedefId(3), l];
    assert!(order_line_chain(&map, &sel).is_none());
    assert_eq!(order_line_chain(&map, &vec![l]), Some(vec![a, b]));
}
