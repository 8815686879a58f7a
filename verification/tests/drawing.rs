// Free drawing: clicks add vertices and linedefs, Backspace takes the last
// click back, Esc cancels, and a click on the first vertex closes the loop.

use doombuilder::drawing::{snap_target, DrawingState, LineEndpoint};
use doombuilder::map::{LinedefId, MapData, MapVertex, VertexId};
use doombuilder::shapes::DrawTool;
use doombuilder::spatial::SpatialIndex;

fn v(x: i32, y: i32) -> MapVertex {
    MapVertex { x, y }
}

#[test]
fn clicks_chain_linedefs_and_close_the_loop() {
    let mut map = MapData::new();
    let mut d: DrawingState<(i32, i32)> = DrawingState::new(DrawTool::Free);
    assert!(d.is_empty());
    assert!(!d.click(&mut map, None, v(0, 0)));
    assert_eq!(d.last, Some((VertexId(0), LineEndpoint::New(0))));
    assert!(!d.click(&mut map, None, v(64, 0)));
    assert!(!d.click(&mut map, None, v(64, 64)));
    assert_eq!(d.chain.linedefs.len(), 2);
    // Clicking the first vertex again closes the triangle.
    assert!(d.click(&mut map, Some(VertexId(0)), v(1, 1)));
    assert_eq!(d.chain.linedefs.len(), 3);
    assert_eq!(d.chain.current_v, vec![VertexId(0), VertexId(1), VertexId(2)]);
    assert_eq!(d.chain.current_l, vec![LinedefId(0), LinedefId(1), LinedefId(2)]);
    let (from, to, line) = d.chain.linedefs[2];
    assert_eq!((from, to), (LineEndpoint::New(2), LineEndpoint::Existing(VertexId(0))));
    assert_eq!((line.v1, line.v2), (VertexId(2), VertexId(0)));
    assert_eq!(map.vertices.len(), 3);
    assert_eq!(map.linedefs.len(), 3);
    assert!(!d.is_empty());
}

#[test]
fn clicking_the_same_vertex_adds_no_line() {
    let mut map = MapData::new();
    let mut d: DrawingState<(i32, i32)> = DrawingState::new(DrawTool::Free);
    d.click(&mut map, None, v(0, 0));
    d.click(&mut map, Some(VertexId(0)), v(0, 0));
    assert_eq!(d.chain.linedefs.len(), 0);
    assert_eq!(map.linedefs.len(), 0);
}

#[test]
fn backspace_takes_back_the_last_click() {
    let mut map = MapData::new();
    let mut d: DrawingState<(i32, i32)> = DrawingState::new(DrawTool::Free);
    d.click(&mut map, None, v(0, 0));
    d.click(&mut map, None, v(64, 0));
    d.click(&mut map, None, v(64, 64));
    d.remove_last(&mut map);
    assert_eq!(d.chain.linedefs.len(), 1);
    assert_eq!(d.chain.current_v, vec![VertexId(0), VertexId(1)]);
    assert!(map.vertices[2].is_none());
    assert!(map.linedefs[1].is_none());
    assert_eq!(d.last, Some((VertexId(1), LineEndpoint::New(1))));
    d.remove_last(&mut map);
    assert_eq!(d.chain.linedefs.len(), 0);
    assert_eq!(d.last, Some((VertexId(0), LineEndpoint::New(0))));
    d.remove_last(&mut map);
    assert!(d.is_empty());
    assert_eq!(d.last, None);
    // Nothing left to take back.
    d.remove_last(&mut map);
    assert!(d.is_empty());
}

#[test]
fn backspace_after_snapping_keeps_the_vertex() {
    let mut map = MapData::new();
    let existing = map.insert_vertex(v(100, 100));
    let mut d: DrawingState<(i32, i32)> = DrawingState::new(DrawTool::Free);
    d.click(&mut map, None, v(0, 0));
    d.click(&mut map, Some(existing), v(0, 0));
    d.remove_last(&mut map);
    assert_eq!(d.chain.linedefs.len(), 0);
    assert_eq!(d.chain.current_v, vec![VertexId(1)]);
    assert!(map.vertices[0].is_some());
    assert_eq!(d.last, Some((VertexId(1), LineEndpoint::New(0))));
}

#[test]
fn cancel_empties_every_added_slot() {
    let mut map = MapData::new();
    let keep = map.insert_vertex(v(5, 5));
    let mut d: DrawingState<(i32, i32)> = DrawingState::new(DrawTool::Free);
    d.click(&mut map, None, v(0, 0));
    d.click(&mut map, Some(keep), v(0, 0));
    d.click(&mut map, None, v(9, 9));
    d.cancel(&mut map);
    assert!(map.vertices[0].is_some());
    assert!(map.vertices[1].is_none() && map.vertices[2].is_none());
    assert!(map.linedefs.iter().all(|l| l.is_none()));
}

#[test]
fn snapping_prefers_the_index_then_the_drawn_vertices() {
    let mut map = MapData::new();
    map.insert_vertex(v(0, 0));
    let index = SpatialIndex::build(&map, Vec::new());
    let mut d: DrawingState<(i32, i32)> = DrawingState::new(DrawTool::Free);
    d.click(&mut map, None, v(100, 0));
    d.click(&mut map, None, v(104, 0));
    // Near the indexed vertex.
    assert_eq!(snap_target(&index, &map, &d.chain.current_v, 8, 8, 32), Some(VertexId(0)));
    // Near the drawn ones only: the nearer one wins.
    assert_eq!(snap_target(&index, &map, &d.chain.current_v, 830, 0, 32), Some(VertexId(2)));
    // Equally near both: the first drawn one wins.
    assert_eq!(snap_target(&index, &map, &d.chain.current_v, 816, 0, 32), Some(VertexId(1)));
    assert_eq!(snap_target(&index, &map, &d.chain.current_v, 2000, 2000, 32), None);
}
