//! Spatial index over map geometry for hit-testing: R-trees (rstar) of
//! vertices and things (points), linedefs (segments) and sector bounds
//! (rectangles), plus the exact tests that the tree candidates go through.
//!
//! Coordinates are fixed point: `SUBUNITS` steps per map unit, so a cursor
//! position between map units is still exact. Map coordinates lie within
//! +-2^16 map units; queries within +-2^19 steps.

use vstd::multiset::Multiset;
use vstd::prelude::*;

use rstar::primitives::{GeomWithData, Line, Rectangle};
use rstar::{RTree, AABB};

use crate::editor::{EditMode, HighlightKind};
use crate::map::{LinedefId, MapData, SectorId, ThingId, VertexId};
use crate::fill::{bbox, corner, mesh_bbox, tri_count};
use crate::mesh::FloorMesh;

verus! {

broadcast use {vstd::multiset::group_multiset_axioms, vstd::seq_lib::group_to_multiset_ensures};

/// An R-tree (`rstar::RTree`) of points, each with a payload. Held opaque;
/// `point_entries` names what it holds.
#[verifier::external_body]
pub struct PointTree {
    tree: RTree<GeomWithData<[i64; 2], usize>>,
}

/// An R-tree of segments, each with a payload.
#[verifier::external_body]
pub struct SegmentTree {
    tree: RTree<GeomWithData<Line<[i64; 2]>, usize>>,
}

/// An R-tree of axis-aligned boxes, each with a payload.
#[verifier::external_body]
pub struct BoxTree {
    tree: RTree<GeomWithData<Rectangle<[i64; 2]>, usize>>,
}

/// Entries (x, y, payload) of a point tree.
pub uninterp spec fn point_entries(t: PointTree) -> Multiset<(i64, i64, usize)>;

/// Entries (from x, from y, to x, to y, payload) of a segment tree.
pub uninterp spec fn segment_entries(t: SegmentTree) -> Multiset<(i64, i64, i64, i64, usize)>;

/// Entries (low x, low y, high x, high y, payload) of a box tree.
pub uninterp spec fn box_entries(t: BoxTree) -> Multiset<(i64, i64, i64, i64, usize)>;

/// Fixed-point steps per map unit.
pub const SUBUNITS: i64 = 8;

/// A fixed-point coordinate the index works with.
pub open spec fn coord_ok(v: int) -> bool {
    -524288 <= v <= 524288
}

pub open spec fn dist2(ax: int, ay: int, bx: int, by: int) -> int {
    (ax - bx) * (ax - bx) + (ay - by) * (ay - by)
}

/// Builds an R-tree (`rstar::RTree::bulk_load`) over the given points, each
/// carrying its payload. The tree holds exactly the given entries.
#[verifier::external_body]
fn load_points(entries: Vec<(i64, i64, usize)>) -> (t: PointTree)
    ensures
        point_entries(t) == entries@.to_multiset(),
{
    PointTree { tree: RTree::bulk_load(entries.into_iter().map(|(x, y, d)| GeomWithData::new([x, y], d)).collect()) }
}

/// `rstar::RTree::nearest_neighbor`: an entry at the least squared distance
/// to (x, y), `None` only for an empty tree. Which of several equally near
/// entries comes back is left open.
#[verifier::external_body]
fn nearest_point(t: &PointTree, x: i64, y: i64) -> (r: Option<(i64, i64, usize)>)
    requires
        forall|e: (i64, i64, usize)| point_entries(*t).contains(e) ==> coord_ok(e.0 as int) && coord_ok(e.1 as int),
        coord_ok(x as int),
        coord_ok(y as int),
    ensures
        r is None <==> point_entries(*t).len() == 0,
        r matches Some(p) ==> point_entries(*t).contains(p) && forall|e: (i64, i64, usize)|
            #[trigger] point_entries(*t).contains(e) ==> dist2(e.0 as int, e.1 as int, x as int, y as int) >= dist2(
                p.0 as int,
                p.1 as int,
                x as int,
                y as int,
            ),
{
    t.tree.nearest_neighbor([x, y]).map(|g| (g.geom()[0], g.geom()[1], g.data))
}


pub open spec fn min2(a: int, b: int) -> int {
    if a <= b { a } else { b }
}

pub open spec fn max2(a: int, b: int) -> int {
    if a >= b { a } else { b }
}

/// (px, py) lies in the box with corners (ax, ay) and (bx, by), borders
/// included.
pub open spec fn in_corners(px: int, py: int, ax: int, ay: int, bx: int, by: int) -> bool {
    min2(ax, bx) <= px <= max2(ax, bx) && min2(ay, by) <= py <= max2(ay, by)
}

/// The bounding box of a segment meets the box with corners (ax, ay) and
/// (bx, by).
pub open spec fn segment_box_meets(e: (i64, i64, i64, i64, usize), ax: int, ay: int, bx: int, by: int) -> bool {
    &&& min2(e.0 as int, e.2 as int) <= max2(ax, bx)
    &&& max2(e.0 as int, e.2 as int) >= min2(ax, bx)
    &&& min2(e.1 as int, e.3 as int) <= max2(ay, by)
    &&& max2(e.1 as int, e.3 as int) >= min2(ay, by)
}

/// `rstar::RTree::locate_in_envelope` with the box spanned by two corners:
/// every entry inside it, borders included, in the tree's order.
#[verifier::external_body]
fn points_in_box(t: &PointTree, ax: i64, ay: i64, bx: i64, by: i64) -> (r: Vec<(i64, i64, usize)>)
    ensures
        r@.to_multiset() == point_entries(*t).filter(
            |e: (i64, i64, usize)| in_corners(e.0 as int, e.1 as int, ax as int, ay as int, bx as int, by as int),
        ),
{
    t.tree.locate_in_envelope(AABB::from_corners([ax, ay], [bx, by])).map(|g| (g.geom()[0], g.geom()[1], g.data)).collect()
}

/// Builds an R-tree (`rstar::RTree::bulk_load`) over segments with payloads.
#[verifier::external_body]
fn load_segments(entries: Vec<(i64, i64, i64, i64, usize)>) -> (t: SegmentTree)
    ensures
        segment_entries(t) == entries@.to_multiset(),
{
    SegmentTree {
        tree: RTree::bulk_load(
            entries.into_iter().map(|(ax, ay, bx, by, d)| GeomWithData::new(Line::new([ax, ay], [bx, by]), d)).collect(),
        ),
    }
}

/// `rstar::RTree::locate_in_envelope_intersecting` with the box spanned by
/// two corners: every segment whose bounding box meets it.
#[verifier::external_body]
fn segments_meeting(t: &SegmentTree, ax: i64, ay: i64, bx: i64, by: i64) -> (r: Vec<(i64, i64, i64, i64, usize)>)
    ensures
        r@.to_multiset() == segment_entries(*t).filter(
            |e: (i64, i64, i64, i64, usize)| segment_box_meets(e, ax as int, ay as int, bx as int, by as int),
        ),
{
    t.tree
        .locate_in_envelope_intersecting(AABB::from_corners([ax, ay], [bx, by]))
        .map(|g| (g.geom().from[0], g.geom().from[1], g.geom().to[0], g.geom().to[1], g.data))
        .collect()
}

/// Builds an R-tree (`rstar::RTree::bulk_load`) over boxes with payloads;
/// each box is given by its low and high corner.
#[verifier::external_body]
fn load_boxes(entries: Vec<(i64, i64, i64, i64, usize)>) -> (t: BoxTree)
    requires
        forall|i: int| 0 <= i < entries@.len() ==> (#[trigger] entries@[i]).0 <= entries@[i].2 && entries@[i].1 <= entries@[i].3,
    ensures
        box_entries(t) == entries@.to_multiset(),
{
    BoxTree {
        tree: RTree::bulk_load(
            entries.into_iter().map(|(lx, ly, hx, hy, d)| GeomWithData::new(Rectangle::from_corners([lx, ly], [hx, hy]), d)).collect(),
        ),
    }
}

/// `rstar::RTree::locate_in_envelope_intersecting` with the one-point box
/// at (x, y): every box that contains the point, borders included.
#[verifier::external_body]
fn boxes_at(t: &BoxTree, x: i64, y: i64) -> (r: Vec<(i64, i64, i64, i64, usize)>)
    ensures
        r@.to_multiset() == box_entries(*t).filter(
            |e: (i64, i64, i64, i64, usize)| e.0 <= x <= e.2 && e.1 <= y <= e.3,
        ),
{
    t.tree
        .locate_in_envelope_intersecting(AABB::from_point([x, y]))
        .map(|g| (g.geom().lower()[0], g.geom().lower()[1], g.geom().upper()[0], g.geom().upper()[1], g.data))
        .collect()
}


// ---------------------------------------------------------------------------
// What the index is built from.

/// A map coordinate the index can hold: within +-2^16 map units, twice the
/// 16-bit range of Doom's map format. In fixed point that is +-2^19 steps,
/// which keeps the squared distances that the R-tree computes in `i64`, and
/// the exact segment distances compared by cross-multiplying in `i128`,
/// clear of overflow.
pub open spec fn map_coord_ok(v: int) -> bool {
    -65536 <= v <= 65536
}

/// A map coordinate in fixed point.
pub open spec fn fixed(v: i32) -> i64 {
    (v * 8) as i64
}

pub open spec fn map_in_range(map: &MapData) -> bool {
    &&& forall|i: int|
        0 <= i < map.vertices@.len() && (#[trigger] map.vertices@[i]) is Some ==> map_coord_ok(map.vertices@[i]->0.x as int)
            && map_coord_ok(map.vertices@[i]->0.y as int)
    &&& forall|i: int|
        0 <= i < map.things@.len() && (#[trigger] map.things@[i]) is Some ==> map_coord_ok(map.things@[i]->0.x as int)
            && map_coord_ok(map.things@[i]->0.y as int)
}

/// Plan positions of a mesh as sequences.
pub open spec fn mesh_plan(m: FloorMesh) -> Seq<Seq<i32>> {
    m.positions@.map_values(|q: [i32; 2]| q@)
}

/// A mesh the index can test points against: its indices name positions
/// and its positions lie in range.
pub open spec fn mesh_in_range(m: FloorMesh) -> bool {
    &&& forall|j: int| 0 <= j < m.indices@.len() ==> (#[trigger] m.indices@[j]) < m.positions@.len()
    &&& forall|i: int|
        0 <= i < m.positions@.len() ==> map_coord_ok((#[trigger] m.positions@[i])[0] as int) && map_coord_ok(
            m.positions@[i][1] as int,
        )
}

pub open spec fn meshes_in_range(ms: Seq<(SectorId, FloorMesh)>) -> bool {
    forall|k: int| 0 <= k < ms.len() ==> mesh_in_range(#[trigger] ms[k].1)
}

/// Point entries of the first `n` vertex slots: fixed-point position and
/// slot.
pub open spec fn vertex_points(map: &MapData, n: int) -> Seq<(i64, i64, usize)>
    decreases n,
{
    if n <= 0 {
        Seq::empty()
    } else {
        let prev = vertex_points(map, n - 1);
        match map.vertices@[n - 1] {
            Some(v) => prev.push((fixed(v.x), fixed(v.y), (n - 1) as usize)),
            None => prev,
        }
    }
}

/// Point entries of the first `n` thing slots.
pub open spec fn thing_points(map: &MapData, n: int) -> Seq<(i64, i64, usize)>
    decreases n,
{
    if n <= 0 {
        Seq::empty()
    } else {
        let prev = thing_points(map, n - 1);
        match map.things@[n - 1] {
            Some(t) => prev.push((fixed(t.x), fixed(t.y), (n - 1) as usize)),
            None => prev,
        }
    }
}

/// Segment entries of the first `n` linedef slots whose two vertices
/// exist.
pub open spec fn linedef_segments(map: &MapData, n: int) -> Seq<(i64, i64, i64, i64, usize)>
    decreases n,
{
    if n <= 0 {
        Seq::empty()
    } else {
        let prev = linedef_segments(map, n - 1);
        match map.linedefs@[n - 1] {
            Some(l) => match (map.vertex_at(l.v1), map.vertex_at(l.v2)) {
                (Some(a), Some(b)) => prev.push((fixed(a.x), fixed(a.y), fixed(b.x), fixed(b.y), (n - 1) as usize)),
                _ => prev,
            },
            None => prev,
        }
    }
}

/// Position of the last of the first `n` meshes that belongs to `sid`, or
/// -1: the mesh a sector is tested against.
pub open spec fn last_with(ms: Seq<(SectorId, FloorMesh)>, sid: SectorId, n: int) -> int
    decreases n,
{
    if n <= 0 {
        -1
    } else if ms[n - 1].0 == sid {
        n - 1
    } else {
        last_with(ms, sid, n - 1)
    }
}

/// Box entries of the first `n` meshes that have positions: the
/// fixed-point bounding box, and the mesh the sector is tested against.
pub open spec fn mesh_boxes(ms: Seq<(SectorId, FloorMesh)>, n: int) -> Seq<(i64, i64, i64, i64, usize)>
    decreases n,
{
    if n <= 0 {
        Seq::empty()
    } else {
        let prev = mesh_boxes(ms, n - 1);
        let m = ms[n - 1].1;
        if m.positions@.len() == 0 {
            prev
        } else {
            let pv = mesh_plan(m);
            let b = bbox(pv, pv.len() as int);
            prev.push(((b.0 * 8) as i64, (b.1 * 8) as i64, (b.2 * 8) as i64, (b.3 * 8) as i64,
                last_with(ms, ms[n - 1].0, ms.len() as int) as usize))
        }
    }
}

/// No two point entries share a payload, and none occurs twice.
pub open spec fn point_ids_distinct(m: Multiset<(i64, i64, usize)>) -> bool {
    forall|e: (i64, i64, usize), f: (i64, i64, usize)|
        #[trigger] m.contains(e) && #[trigger] m.contains(f) && e.2 == f.2 ==> e == f && m.count(e) == 1
}

/// No two segment entries share a payload, and none occurs twice.
pub open spec fn segment_ids_distinct(m: Multiset<(i64, i64, i64, i64, usize)>) -> bool {
    forall|e: (i64, i64, i64, i64, usize), f: (i64, i64, i64, i64, usize)|
        #[trigger] m.contains(e) && #[trigger] m.contains(f) && e.4 == f.4 ==> e == f && m.count(e) == 1
}

/// The vertex entries come in increasing slot order, each below `n`.
proof fn lemma_vertex_points_ordered(map: &MapData, n: int)
    requires
        n <= map.vertices@.len(),
        n <= usize::MAX,
    ensures
        forall|i: int, j: int|
            0 <= i < j < vertex_points(map, n).len() ==> (#[trigger] vertex_points(map, n)[i]).2 < (
            #[trigger] vertex_points(map, n)[j]).2,
        forall|i: int| 0 <= i < vertex_points(map, n).len() ==> (#[trigger] vertex_points(map, n)[i]).2 < n,
    decreases n,
{
    if n > 0 {
        lemma_vertex_points_ordered(map, n - 1);
        let prev = vertex_points(map, n - 1);
        let cur = vertex_points(map, n);
        assert forall|i: int| 0 <= i < prev.len() implies cur[i] == prev[i] by {}
        assert forall|i: int, j: int| 0 <= i < j < cur.len() implies (#[trigger] cur[i]).2 < (#[trigger] cur[j]).2 by {
            if j < prev.len() {
                assert(cur[i] == prev[i] && cur[j] == prev[j]);
            } else {
                assert(cur[i] == prev[i]);
                assert(prev[i].2 < n - 1);
                assert(cur.len() == prev.len() + 1);
                assert(cur[j].2 == (n - 1) as usize);
            }
        }
    }
}

/// The segment entries come in increasing slot order, each below `n`.
proof fn lemma_linedef_segments_ordered(map: &MapData, n: int)
    requires
        n <= map.linedefs@.len(),
        n <= usize::MAX,
    ensures
        forall|i: int, j: int|
            0 <= i < j < linedef_segments(map, n).len() ==> (#[trigger] linedef_segments(map, n)[i]).4 < (
            #[trigger] linedef_segments(map, n)[j]).4,
        forall|i: int| 0 <= i < linedef_segments(map, n).len() ==> (#[trigger] linedef_segments(map, n)[i]).4 < n,
    decreases n,
{
    if n > 0 {
        lemma_linedef_segments_ordered(map, n - 1);
        let prev = linedef_segments(map, n - 1);
        let cur = linedef_segments(map, n);
        assert forall|i: int| 0 <= i < prev.len() implies cur[i] == prev[i] by {}
        assert forall|i: int, j: int| 0 <= i < j < cur.len() implies (#[trigger] cur[i]).4 < (#[trigger] cur[j]).4 by {
            if j < prev.len() {
                assert(cur[i] == prev[i] && cur[j] == prev[j]);
            } else {
                assert(cur[i] == prev[i]);
                assert(prev[i].4 < n - 1);
                assert(cur.len() == prev.len() + 1);
                assert(cur[j].4 == (n - 1) as usize);
            }
        }
    }
}

proof fn lemma_point_seq_distinct(s: Seq<(i64, i64, usize)>)
    requires
        forall|i: int, j: int| 0 <= i < j < s.len() ==> (#[trigger] s[i]).2 < (#[trigger] s[j]).2,
    ensures
        point_ids_distinct(s.to_multiset()),
{
    assert(s.no_duplicates()) by {
        assert forall|i: int, j: int| 0 <= i < s.len() && 0 <= j < s.len() && i != j implies s[i] != s[j] by {
            if i < j {
                assert(s[i].2 < s[j].2);
            } else {
                assert(s[j].2 < s[i].2);
            }
        }
    }
    s.lemma_multiset_has_no_duplicates();
    assert forall|e: (i64, i64, usize), f: (i64, i64, usize)|
        #[trigger] s.to_multiset().contains(e) && #[trigger] s.to_multiset().contains(f) && e.2 == f.2 implies e == f
        && s.to_multiset().count(e) == 1 by {
        let i = choose|i: int| 0 <= i < s.len() && s[i] == e;
        let j = choose|j: int| 0 <= j < s.len() && s[j] == f;
        if i < j {
            assert(s[i].2 < s[j].2);
        } else if j < i {
            assert(s[j].2 < s[i].2);
        }
    }
}

proof fn lemma_segment_seq_distinct(s: Seq<(i64, i64, i64, i64, usize)>)
    requires
        forall|i: int, j: int| 0 <= i < j < s.len() ==> (#[trigger] s[i]).4 < (#[trigger] s[j]).4,
    ensures
        segment_ids_distinct(s.to_multiset()),
{
    assert(s.no_duplicates()) by {
        assert forall|i: int, j: int| 0 <= i < s.len() && 0 <= j < s.len() && i != j implies s[i] != s[j] by {
            if i < j {
                assert(s[i].4 < s[j].4);
            } else {
                assert(s[j].4 < s[i].4);
            }
        }
    }
    s.lemma_multiset_has_no_duplicates();
    assert forall|e: (i64, i64, i64, i64, usize), f: (i64, i64, i64, i64, usize)|
        #[trigger] s.to_multiset().contains(e) && #[trigger] s.to_multiset().contains(f) && e.4 == f.4 implies e == f
        && s.to_multiset().count(e) == 1 by {
        let i = choose|i: int| 0 <= i < s.len() && s[i] == e;
        let j = choose|j: int| 0 <= j < s.len() && s[j] == f;
        if i < j {
            assert(s[i].4 < s[j].4);
        } else if j < i {
            assert(s[j].4 < s[i].4);
        }
    }
}

/// Spatial index over one map's vertices, linedefs, sectors and things.
pub struct SpatialIndex {
    vertices: PointTree,
    linedefs: SegmentTree,
    sectors: BoxTree,
    things: PointTree,
    sector_meshes: Vec<(SectorId, FloorMesh)>,
}

/// What a cursor position hits.
#[derive(Clone, Copy, Debug)]
pub enum Hit {
    Vertex(VertexId),
    Linedef(LinedefId),
    Sector(SectorId),
    Thing(ThingId),
}

impl SpatialIndex {
    pub closed spec fn vertex_set(&self) -> Multiset<(i64, i64, usize)> {
        point_entries(self.vertices)
    }

    pub closed spec fn thing_set(&self) -> Multiset<(i64, i64, usize)> {
        point_entries(self.things)
    }

    pub closed spec fn segment_set(&self) -> Multiset<(i64, i64, i64, i64, usize)> {
        segment_entries(self.linedefs)
    }

    pub closed spec fn box_set(&self) -> Multiset<(i64, i64, i64, i64, usize)> {
        box_entries(self.sectors)
    }

    pub closed spec fn meshes(&self) -> Seq<(SectorId, FloorMesh)> {
        self.sector_meshes@
    }

    /// Every entry lies in range, every box names a mesh, and no vertex or
    /// linedef is indexed twice.
    pub closed spec fn wf(&self) -> bool {
        &&& forall|e: (i64, i64, usize)| #[trigger] point_entries(self.vertices).contains(e) ==> coord_ok(e.0 as int) && coord_ok(e.1 as int)
        &&& forall|e: (i64, i64, usize)| #[trigger] point_entries(self.things).contains(e) ==> coord_ok(e.0 as int) && coord_ok(e.1 as int)
        &&& forall|e: (i64, i64, i64, i64, usize)| #[trigger] segment_entries(self.linedefs).contains(e) ==> coord_ok(e.0 as int)
            && coord_ok(e.1 as int) && coord_ok(e.2 as int) && coord_ok(e.3 as int)
        &&& forall|e: (i64, i64, i64, i64, usize)| #[trigger] box_entries(self.sectors).contains(e) ==> coord_ok(e.0 as int)
            && coord_ok(e.1 as int) && coord_ok(e.2 as int) && coord_ok(e.3 as int) && e.4 < self.sector_meshes@.len()
        &&& meshes_in_range(self.sector_meshes@)
        &&& point_ids_distinct(point_entries(self.vertices))
        &&& segment_ids_distinct(segment_entries(self.linedefs))
    }
}

proof fn lemma_bbox_in_range(pv: Seq<Seq<i32>>, n: int)
    requires
        1 <= n <= pv.len(),
        forall|i: int| 0 <= i < pv.len() ==> map_coord_ok((#[trigger] pv[i])[0] as int) && map_coord_ok(pv[i][1] as int),
    ensures
        map_coord_ok(bbox(pv, n).0),
        map_coord_ok(bbox(pv, n).1),
        map_coord_ok(bbox(pv, n).2),
        map_coord_ok(bbox(pv, n).3),
        bbox(pv, n).0 <= bbox(pv, n).2,
        bbox(pv, n).1 <= bbox(pv, n).3,
    decreases n,
{
    if n > 1 {
        lemma_bbox_in_range(pv, n - 1);
    }
}

fn vertex_list(map: &MapData) -> (r: Vec<(i64, i64, usize)>)
    requires
        map_in_range(map),
    ensures
        r@ == vertex_points(map, map.vertices@.len() as int),
        forall|j: int| 0 <= j < r@.len() ==> coord_ok((#[trigger] r@[j]).0 as int) && coord_ok(r@[j].1 as int),
{
    let mut out: Vec<(i64, i64, usize)> = Vec::new();
    let mut i: usize = 0;
    while i < map.vertices.len()
        invariant
            0 <= i <= map.vertices@.len(),
            map_in_range(map),
            out@ == vertex_points(map, i as int),
            forall|j: int| 0 <= j < out@.len() ==> coord_ok((#[trigger] out@[j]).0 as int) && coord_ok(out@[j].1 as int),
        decreases map.vertices@.len() - i,
    {
        match map.vertices[i] {
            Some(v) => {
                assert(map.vertices@[i as int] is Some);
                out.push(((v.x as i64) * 8, (v.y as i64) * 8, i));
            },
            None => {},
        }
        i = i + 1;
    }
    out
}

fn thing_list(map: &MapData) -> (r: Vec<(i64, i64, usize)>)
    requires
        map_in_range(map),
    ensures
        r@ == thing_points(map, map.things@.len() as int),
        forall|j: int| 0 <= j < r@.len() ==> coord_ok((#[trigger] r@[j]).0 as int) && coord_ok(r@[j].1 as int),
{
    let mut out: Vec<(i64, i64, usize)> = Vec::new();
    let mut i: usize = 0;
    while i < map.things.len()
        invariant
            0 <= i <= map.things@.len(),
            map_in_range(map),
            out@ == thing_points(map, i as int),
            forall|j: int| 0 <= j < out@.len() ==> coord_ok((#[trigger] out@[j]).0 as int) && coord_ok(out@[j].1 as int),
        decreases map.things@.len() - i,
    {
        match map.things[i] {
            Some(t) => {
                assert(map.things@[i as int] is Some);
                out.push(((t.x as i64) * 8, (t.y as i64) * 8, i));
            },
            None => {},
        }
        i = i + 1;
    }
    out
}

fn segment_list(map: &MapData) -> (r: Vec<(i64, i64, i64, i64, usize)>)
    requires
        map_in_range(map),
    ensures
        r@ == linedef_segments(map, map.linedefs@.len() as int),
        forall|j: int|
            0 <= j < r@.len() ==> coord_ok((#[trigger] r@[j]).0 as int) && coord_ok(r@[j].1 as int) && coord_ok(
                r@[j].2 as int,
            ) && coord_ok(r@[j].3 as int),
{
    let mut out: Vec<(i64, i64, i64, i64, usize)> = Vec::new();
    let mut i: usize = 0;
    while i < map.linedefs.len()
        invariant
            0 <= i <= map.linedefs@.len(),
            map_in_range(map),
            out@ == linedef_segments(map, i as int),
            forall|j: int|
                0 <= j < out@.len() ==> coord_ok((#[trigger] out@[j]).0 as int) && coord_ok(out@[j].1 as int) && coord_ok(
                    out@[j].2 as int,
                ) && coord_ok(out@[j].3 as int),
        decreases map.linedefs@.len() - i,
    {
        match map.linedefs[i] {
            Some(l) => {
                match (map.vertex(l.v1), map.vertex(l.v2)) {
                    (Some(a), Some(b)) => {
                        assert(map.vertices@[l.v1.0 as int] is Some);
                        assert(map.vertices@[l.v2.0 as int] is Some);
                        out.push(((a.x as i64) * 8, (a.y as i64) * 8, (b.x as i64) * 8, (b.y as i64) * 8, i));
                    },
                    _ => {},
                }
            },
            None => {},
        }
        i = i + 1;
    }
    out
}

fn last_mesh_with(ms: &Vec<(SectorId, FloorMesh)>, k: usize) -> (r: usize)
    requires
        k < ms@.len(),
    ensures
        r as int == last_with(ms@, ms@[k as int].0, ms@.len() as int),
        k <= r < ms@.len(),
{
    let sid = ms[k].0;
    let mut j: usize = ms.len();
    while j > 0
        invariant
            k < j <= ms@.len(),
            sid == ms@[k as int].0,
            last_with(ms@, sid, ms@.len() as int) == last_with(ms@, sid, j as int),
        decreases j,
    {
        if ms[j - 1].0 == sid {
            return j - 1;
        }
        j = j - 1;
    }
    k
}

fn box_list(ms: &Vec<(SectorId, FloorMesh)>) -> (r: Vec<(i64, i64, i64, i64, usize)>)
    requires
        meshes_in_range(ms@),
    ensures
        r@ == mesh_boxes(ms@, ms@.len() as int),
        forall|j: int|
            0 <= j < r@.len() ==> coord_ok((#[trigger] r@[j]).0 as int) && coord_ok(r@[j].1 as int) && coord_ok(
                r@[j].2 as int,
            ) && coord_ok(r@[j].3 as int) && r@[j].0 <= r@[j].2 && r@[j].1 <= r@[j].3 && r@[j].4 < ms@.len(),
{
    let mut out: Vec<(i64, i64, i64, i64, usize)> = Vec::new();
    let mut k: usize = 0;
    while k < ms.len()
        invariant
            0 <= k <= ms@.len(),
            meshes_in_range(ms@),
            out@ == mesh_boxes(ms@, k as int),
            forall|j: int|
                0 <= j < out@.len() ==> coord_ok((#[trigger] out@[j]).0 as int) && coord_ok(out@[j].1 as int) && coord_ok(
                    out@[j].2 as int,
                ) && coord_ok(out@[j].3 as int) && out@[j].0 <= out@[j].2 && out@[j].1 <= out@[j].3 && out@[j].4 < ms@.len(),
        decreases ms@.len() - k,
    {
        let m = &ms[k].1;
        if m.positions.len() > 0 {
            let (x0, y0, x1, y1) = mesh_bbox(&m.positions);
            proof {
                let pv = mesh_plan(*m);
                assert(mesh_in_range(ms@[k as int].1));
                assert forall|i: int| 0 <= i < pv.len() implies map_coord_ok((#[trigger] pv[i])[0] as int) && map_coord_ok(
                    pv[i][1] as int,
                ) by {
                    assert(pv[i] == m.positions@[i]@);
                }
                lemma_bbox_in_range(pv, pv.len() as int);
            }
            let d = last_mesh_with(ms, k);
            out.push(((x0 as i64) * 8, (y0 as i64) * 8, (x1 as i64) * 8, (y1 as i64) * 8, d));
        }
        k = k + 1;
    }
    out
}

impl SpatialIndex {
    /// Index a map's vertices, linedefs and things, and the given sector
    /// meshes (a sector with several meshes is tested against the last).
    pub fn build(map: &MapData, sector_meshes: Vec<(SectorId, FloorMesh)>) -> (r: SpatialIndex)
        requires
            map_in_range(map),
            meshes_in_range(sector_meshes@),
        ensures
            r.wf(),
            r.vertex_set() == vertex_points(map, map.vertices@.len() as int).to_multiset(),
            r.thing_set() == thing_points(map, map.things@.len() as int).to_multiset(),
            r.segment_set() == linedef_segments(map, map.linedefs@.len() as int).to_multiset(),
            r.box_set() == mesh_boxes(sector_meshes@, sector_meshes@.len() as int).to_multiset(),
            r.meshes() == sector_meshes@,
    {
        let vs = vertex_list(map);
        let ts = thing_list(map);
        let ls = segment_list(map);
        let bs = box_list(&sector_meshes);
        let ghost vsv = vs@;
        let ghost tsv = ts@;
        let ghost lsv = ls@;
        let ghost bsv = bs@;
        let vertices = load_points(vs);
        let things = load_points(ts);
        let linedefs = load_segments(ls);
        let sectors = load_boxes(bs);
        let r = SpatialIndex { vertices, linedefs, sectors, things, sector_meshes };
        let vertex_slots = map.vertices.len();
        let linedef_slots = map.linedefs.len();
        proof {
            assert forall|e: (i64, i64, usize)| #[trigger] point_entries(r.vertices).contains(e) implies coord_ok(e.0 as int)
                && coord_ok(e.1 as int) by {
                assert(vsv.contains(e));
            }
            assert forall|e: (i64, i64, usize)| #[trigger] point_entries(r.things).contains(e) implies coord_ok(e.0 as int)
                && coord_ok(e.1 as int) by {
                assert(tsv.contains(e));
            }
            assert forall|e: (i64, i64, i64, i64, usize)| #[trigger] segment_entries(r.linedefs).contains(e) implies coord_ok(
                e.0 as int,
            ) && coord_ok(e.1 as int) && coord_ok(e.2 as int) && coord_ok(e.3 as int) by {
                assert(lsv.contains(e));
            }
            assert forall|e: (i64, i64, i64, i64, usize)| #[trigger] box_entries(r.sectors).contains(e) implies coord_ok(
                e.0 as int,
            ) && coord_ok(e.1 as int) && coord_ok(e.2 as int) && coord_ok(e.3 as int) && e.4 < r.sector_meshes@.len() by {
                assert(bsv.contains(e));
            }
            lemma_vertex_points_ordered(map, vertex_slots as int);
            lemma_point_seq_distinct(vsv);
            lemma_linedef_segments_ordered(map, linedef_slots as int);
            lemma_segment_seq_distinct(lsv);
        }
        r
    }
}


// ---------------------------------------------------------------------------
// Queries.

/// A search radius the index accepts: within +-2^21 steps.
pub open spec fn radius_ok(r: int) -> bool {
    -2097152 <= r <= 2097152
}

/// Some entry lies within squared distance `r2` of (x, y).
pub open spec fn point_within(m: Multiset<(i64, i64, usize)>, x: int, y: int, r2: int) -> bool {
    exists|e: (i64, i64, usize)| #[trigger] m.contains(e) && dist2(e.0 as int, e.1 as int, x, y) <= r2
}

/// `id` is the payload of an entry within squared distance `r2` of (x, y)
/// that no entry is nearer than.
pub open spec fn point_pick(m: Multiset<(i64, i64, usize)>, x: int, y: int, r2: int, id: usize) -> bool {
    exists|e: (i64, i64, usize)|
        #[trigger] m.contains(e) && e.2 == id && dist2(e.0 as int, e.1 as int, x, y) <= r2 && forall|f: (i64, i64, usize)|
            #[trigger] m.contains(f) ==> dist2(e.0 as int, e.1 as int, x, y) <= dist2(f.0 as int, f.1 as int, x, y)
}

/// Squared distance from (x, y) to a segment, as a fraction (numerator,
/// denominator): to the nearer end when the foot of the perpendicular
/// falls outside the segment (or the segment is a point), else the squared
/// perpendicular distance.
pub open spec fn seg_dist(e: (i64, i64, i64, i64, usize), x: int, y: int) -> (int, int) {
    let dx = e.2 - e.0;
    let dy = e.3 - e.1;
    let ex = x - e.0;
    let ey = y - e.1;
    let len2 = dx * dx + dy * dy;
    let dot = ex * dx + ey * dy;
    if len2 == 0 || dot <= 0 {
        (ex * ex + ey * ey, 1)
    } else if dot >= len2 {
        ((x - e.2) * (x - e.2) + (y - e.3) * (y - e.3), 1)
    } else {
        let cross = ex * dy - ey * dx;
        (cross * cross, len2)
    }
}

/// Segment `e` is no farther from (x, y) than segment `f`.
pub open spec fn seg_le(e: (i64, i64, i64, i64, usize), f: (i64, i64, i64, i64, usize), x: int, y: int) -> bool {
    seg_dist(e, x, y).0 * seg_dist(f, x, y).1 <= seg_dist(f, x, y).0 * seg_dist(e, x, y).1
}

/// Segment `e` lies within distance `r` of (x, y).
pub open spec fn seg_within(e: (i64, i64, i64, i64, usize), x: int, y: int, r: int) -> bool {
    seg_dist(e, x, y).0 <= r * r * seg_dist(e, x, y).1
}

pub open spec fn seg_found(m: Multiset<(i64, i64, i64, i64, usize)>, x: int, y: int, r: int) -> bool {
    exists|e: (i64, i64, i64, i64, usize)| #[trigger] m.contains(e) && seg_within(e, x, y, r)
}

/// `id` is the payload of a segment within distance `r` that no segment
/// within `r` is nearer than.
pub open spec fn seg_pick(m: Multiset<(i64, i64, i64, i64, usize)>, x: int, y: int, r: int, id: usize) -> bool {
    exists|e: (i64, i64, i64, i64, usize)|
        #[trigger] m.contains(e) && e.4 == id && seg_within(e, x, y, r) && forall|f: (i64, i64, i64, i64, usize)|
            #[trigger] m.contains(f) && seg_within(f, x, y, r) ==> seg_le(e, f, x, y)
}

/// Twice the signed area of (p, a, b), as the hit test computes it.
pub open spec fn sign2(px: int, py: int, ax: int, ay: int, bx: int, by: int) -> int {
    (px - bx) * (ay - by) - (ax - bx) * (py - by)
}

/// (x, y) lies in the triangle (a, b, c) of map positions, borders
/// included: the three signs do not disagree.
pub open spec fn tri_contains(a: Seq<i32>, b: Seq<i32>, c: Seq<i32>, x: int, y: int) -> bool {
    let d1 = sign2(x, y, a[0] * 8, a[1] * 8, b[0] * 8, b[1] * 8);
    let d2 = sign2(x, y, b[0] * 8, b[1] * 8, c[0] * 8, c[1] * 8);
    let d3 = sign2(x, y, c[0] * 8, c[1] * 8, a[0] * 8, a[1] * 8);
    !((d1 < 0 || d2 < 0 || d3 < 0) && (d1 > 0 || d2 > 0 || d3 > 0))
}

pub open spec fn tri_at(m: FloorMesh, k: int, x: int, y: int) -> bool {
    let pv = mesh_plan(m);
    let iv = m.indices@;
    tri_contains(corner(pv, iv, 3 * k), corner(pv, iv, 3 * k + 1), corner(pv, iv, 3 * k + 2), x, y)
}

/// Some triangle of the mesh contains (x, y).
pub open spec fn mesh_hit(m: FloorMesh, x: int, y: int) -> bool {
    exists|k: int| 0 <= k < tri_count(m.indices@) && #[trigger] tri_at(m, k, x, y)
}

/// Box entry `e` contains (x, y) and so does the mesh it names.
pub open spec fn box_hit(ms: Seq<(SectorId, FloorMesh)>, e: (i64, i64, i64, i64, usize), x: int, y: int) -> bool {
    e.0 <= x <= e.2 && e.1 <= y <= e.3 && e.4 < ms.len() && mesh_hit(ms[e.4 as int].1, x, y)
}

/// Twice the area of triangle `k` of the mesh, in square map units.
pub open spec fn tri_area2(m: FloorMesh, k: int) -> int {
    let pv = mesh_plan(m);
    let iv = m.indices@;
    let a = corner(pv, iv, 3 * k);
    let b = corner(pv, iv, 3 * k + 1);
    let c = corner(pv, iv, 3 * k + 2);
    let cross = (b[0] - a[0]) * (c[1] - a[1]) - (b[1] - a[1]) * (c[0] - a[0]);
    if cross < 0 { -cross } else { cross }
}

/// Twice the area of the first `n` triangles of the mesh.
pub open spec fn mesh_area2_upto(m: FloorMesh, n: int) -> int
    decreases n,
{
    if n <= 0 {
        0
    } else {
        mesh_area2_upto(m, n - 1) + tri_area2(m, n - 1)
    }
}

/// Twice the area a sector's floor mesh covers: the sum of its triangles'.
pub open spec fn mesh_area2(m: FloorMesh) -> int {
    mesh_area2_upto(m, tri_count(m.indices@))
}

/// Twice the area of the mesh that box entry `e` names.
pub open spec fn entry_area2(ms: Seq<(SectorId, FloorMesh)>, e: (i64, i64, i64, i64, usize)) -> int {
    mesh_area2(ms[e.4 as int].1)
}

pub open spec fn sector_found(m: Multiset<(i64, i64, i64, i64, usize)>, ms: Seq<(SectorId, FloorMesh)>, x: int, y: int) -> bool {
    exists|e: (i64, i64, i64, i64, usize)| #[trigger] m.contains(e) && box_hit(ms, e, x, y)
}

/// `s` is the sector of a hit entry whose mesh no hit entry's mesh is
/// smaller in area than.
pub open spec fn sector_pick(
    m: Multiset<(i64, i64, i64, i64, usize)>,
    ms: Seq<(SectorId, FloorMesh)>,
    x: int,
    y: int,
    s: SectorId,
) -> bool {
    exists|e: (i64, i64, i64, i64, usize)|
        #[trigger] m.contains(e) && box_hit(ms, e, x, y) && ms[e.4 as int].0 == s && forall|f: (i64, i64, i64, i64, usize)|
            #[trigger] m.contains(f) && box_hit(ms, f, x, y) ==> entry_area2(ms, e) <= entry_area2(ms, f)
}

fn dist2_exec(ax: i64, ay: i64, bx: i64, by: i64) -> (r: i64)
    requires
        coord_ok(ax as int),
        coord_ok(ay as int),
        coord_ok(bx as int),
        coord_ok(by as int),
    ensures
        r == dist2(ax as int, ay as int, bx as int, by as int),
{
    let dx = ax - bx;
    let dy = ay - by;
    assert(0 <= dx * dx <= 1099511627776) by (nonlinear_arith)
        requires
            -1048576 <= dx <= 1048576,
    ;
    assert(0 <= dy * dy <= 1099511627776) by (nonlinear_arith)
        requires
            -1048576 <= dy <= 1048576,
    ;
    dx * dx + dy * dy
}

/// Payload of a nearest point entry within distance `r` of (x, y).
fn nearest_within(t: &PointTree, x: i64, y: i64, r: i64) -> (res: Option<usize>)
    requires
        forall|e: (i64, i64, usize)| #[trigger] point_entries(*t).contains(e) ==> coord_ok(e.0 as int) && coord_ok(e.1 as int),
        coord_ok(x as int),
        coord_ok(y as int),
        radius_ok(r as int),
    ensures
        res is Some <==> point_within(point_entries(*t), x as int, y as int, r * r),
        res matches Some(id) ==> point_pick(point_entries(*t), x as int, y as int, r * r, id),
{
    let ghost m = point_entries(*t);
    assert(0 <= r * r <= 4398046511104) by (nonlinear_arith)
        requires
            -2097152 <= r <= 2097152,
    ;
    match nearest_point(t, x, y) {
        None => {
            proof {
                vstd::multiset::lemma_multiset_empty_len(m);
            }
            None
        },
        Some(p) => {
            let d = dist2_exec(p.0, p.1, x, y);
            if d <= r * r {
                Some(p.2)
            } else {
                proof {
                    assert forall|e: (i64, i64, usize)| #[trigger] m.contains(e) implies dist2(e.0 as int, e.1 as int, x as int, y as int)
                        > r * r by {}
                }
                None
            }
        },
    }
}


proof fn lemma_prod_bound(a: int, b: int)
    requires
        -1048576 <= a <= 1048576,
        -1048576 <= b <= 1048576,
    ensures
        -1099511627776 <= a * b <= 1099511627776,
{
    assert(-1099511627776 <= a * b <= 1099511627776) by (nonlinear_arith)
        requires
            -1048576 <= a <= 1048576,
            -1048576 <= b <= 1048576,
    ;
}

proof fn lemma_square_bound(a: int, k: int)
    requires
        0 <= k,
        -k <= a <= k,
    ensures
        0 <= a * a <= k * k,
{
    assert(0 <= a * a <= k * k) by (nonlinear_arith)
        requires
            0 <= k,
            -k <= a <= k,
    ;
}

/// Fractions with positive denominators: n1/d1 < n2/d2 <= n3/d3 gives
/// n1/d1 <= n3/d3.
proof fn lemma_frac_trans(n1: int, d1: int, n2: int, d2: int, n3: int, d3: int)
    requires
        d1 > 0,
        d2 > 0,
        d3 > 0,
        n1 * d2 < n2 * d1,
        n2 * d3 <= n3 * d2,
    ensures
        n1 * d3 <= n3 * d1,
{
    assert(n1 * d2 * d3 <= n2 * d1 * d3) by (nonlinear_arith)
        requires
            n1 * d2 < n2 * d1,
            d3 > 0,
    ;
    assert(n2 * d3 * d1 <= n3 * d2 * d1) by (nonlinear_arith)
        requires
            n2 * d3 <= n3 * d2,
            d1 > 0,
    ;
    assert(n1 * d3 <= n3 * d1) by (nonlinear_arith)
        requires
            n1 * d2 * d3 <= n2 * d1 * d3,
            n2 * d3 * d1 <= n3 * d2 * d1,
            d2 > 0,
    ;
}

fn seg_dist_exec(e: (i64, i64, i64, i64, usize), x: i64, y: i64) -> (r: (i128, i128))
    requires
        coord_ok(e.0 as int),
        coord_ok(e.1 as int),
        coord_ok(e.2 as int),
        coord_ok(e.3 as int),
        coord_ok(x as int),
        coord_ok(y as int),
    ensures
        (r.0 as int, r.1 as int) == seg_dist(e, x as int, y as int),
        0 <= r.0 <= 4835703278458516698824704,
        1 <= r.1 <= 2199023255552,
{
    let dx = e.2 as i128 - e.0 as i128;
    let dy = e.3 as i128 - e.1 as i128;
    let ex = x as i128 - e.0 as i128;
    let ey = y as i128 - e.1 as i128;
    proof {
        lemma_prod_bound(dx as int, dx as int);
        lemma_prod_bound(dy as int, dy as int);
        lemma_prod_bound(ex as int, dx as int);
        lemma_prod_bound(ey as int, dy as int);
        lemma_prod_bound(ex as int, dy as int);
        lemma_prod_bound(ey as int, dx as int);
        lemma_square_bound(dx as int, 1048576);
        lemma_square_bound(dy as int, 1048576);
        lemma_square_bound(ex as int, 1048576);
        lemma_square_bound(ey as int, 1048576);
    }
    let len2 = dx * dx + dy * dy;
    let dot = ex * dx + ey * dy;
    if len2 == 0 || dot <= 0 {
        (ex * ex + ey * ey, 1)
    } else if dot >= len2 {
        let fx = x as i128 - e.2 as i128;
        let fy = y as i128 - e.3 as i128;
        proof {
            lemma_square_bound(fx as int, 1048576);
            lemma_square_bound(fy as int, 1048576);
        }
        (fx * fx + fy * fy, 1)
    } else {
        let cross = ex * dy - ey * dx;
        proof {
            lemma_square_bound(cross as int, 2199023255552);
        }
        (cross * cross, len2)
    }
}

fn sign2_exec(px: i64, py: i64, ax: i64, ay: i64, bx: i64, by: i64) -> (r: i64)
    requires
        coord_ok(px as int),
        coord_ok(py as int),
        coord_ok(ax as int),
        coord_ok(ay as int),
        coord_ok(bx as int),
        coord_ok(by as int),
    ensures
        r == sign2(px as int, py as int, ax as int, ay as int, bx as int, by as int),
{
    proof {
        lemma_prod_bound(px - bx, ay - by);
        lemma_prod_bound(ax - bx, py - by);
    }
    (px - bx) * (ay - by) - (ax - bx) * (py - by)
}

fn tri_contains_exec(a: [i32; 2], b: [i32; 2], c: [i32; 2], x: i64, y: i64) -> (r: bool)
    requires
        map_coord_ok(a[0] as int),
        map_coord_ok(a[1] as int),
        map_coord_ok(b[0] as int),
        map_coord_ok(b[1] as int),
        map_coord_ok(c[0] as int),
        map_coord_ok(c[1] as int),
        coord_ok(x as int),
        coord_ok(y as int),
    ensures
        r == tri_contains(a@, b@, c@, x as int, y as int),
{
    let ax = a[0] as i64 * 8;
    let ay = a[1] as i64 * 8;
    let bx = b[0] as i64 * 8;
    let by = b[1] as i64 * 8;
    let cx = c[0] as i64 * 8;
    let cy = c[1] as i64 * 8;
    let d1 = sign2_exec(x, y, ax, ay, bx, by);
    let d2 = sign2_exec(x, y, bx, by, cx, cy);
    let d3 = sign2_exec(x, y, cx, cy, ax, ay);
    let has_neg = d1 < 0 || d2 < 0 || d3 < 0;
    let has_pos = d1 > 0 || d2 > 0 || d3 > 0;
    !(has_neg && has_pos)
}

/// Twice the area of a mesh, as `mesh_area2` says.
fn mesh_area2_exec(m: &FloorMesh) -> (r: i128)
    requires
        mesh_in_range(*m),
    ensures
        r == mesh_area2(*m),
{
    let ghost pv = mesh_plan(*m);
    let ghost iv = m.indices@;
    let mut sum: i128 = 0;
    let mut i: usize = 0;
    while m.indices.len() - i >= 3
        invariant
            pv == mesh_plan(*m),
            iv == m.indices@,
            mesh_in_range(*m),
            i % 3 == 0,
            0 <= i <= iv.len(),
            sum == mesh_area2_upto(*m, i as int / 3),
            0 <= sum <= (i as int / 3) * 0x8_0000_0000,
        decreases iv.len() - i,
    {
        let ia = m.indices[i] as usize;
        let ib = m.indices[i + 1] as usize;
        let ic = m.indices[i + 2] as usize;
        let a = m.positions[ia];
        let b = m.positions[ib];
        let c = m.positions[ic];
        let ghost k = i as int / 3;
        proof {
            assert(3 * k == i);
            assert(pv[iv[3 * k] as int] == a@);
            assert(pv[iv[3 * k + 1] as int] == b@);
            assert(pv[iv[3 * k + 2] as int] == c@);
            assert(map_coord_ok(m.positions@[ia as int][0] as int) && map_coord_ok(m.positions@[ia as int][1] as int));
            assert(map_coord_ok(m.positions@[ib as int][0] as int) && map_coord_ok(m.positions@[ib as int][1] as int));
            assert(map_coord_ok(m.positions@[ic as int][0] as int) && map_coord_ok(m.positions@[ic as int][1] as int));
        }
        let bx = b[0] as i128 - a[0] as i128;
        let by = b[1] as i128 - a[1] as i128;
        let cx = c[0] as i128 - a[0] as i128;
        let cy = c[1] as i128 - a[1] as i128;
        assert(-0x4_0000_0000 <= bx * cy <= 0x4_0000_0000 && -0x4_0000_0000 <= by * cx <= 0x4_0000_0000) by (nonlinear_arith)
            requires
                -0x2_0000 <= bx <= 0x2_0000,
                -0x2_0000 <= by <= 0x2_0000,
                -0x2_0000 <= cx <= 0x2_0000,
                -0x2_0000 <= cy <= 0x2_0000,
        ;
        let cross = bx * cy - by * cx;
        let t = if cross < 0 { -cross } else { cross };
        proof {
            assert(t == tri_area2(*m, k));
            assert((i + 3) as int / 3 == k + 1);
            assert(sum + t <= (k + 1) * 0x8_0000_0000) by (nonlinear_arith)
                requires
                    sum <= k * 0x8_0000_0000,
                    t <= 0x8_0000_0000,
            ;
            assert((k + 1) * 0x8_0000_0000 <= 0x8_0000_0000_0000_0000_0000_0000) by (nonlinear_arith)
                requires
                    0 <= k,
                    3 * k + 3 <= iv.len(),
                    iv.len() <= usize::MAX,
            ;
        }
        sum = sum + t;
        i = i + 3;
    }
    proof {
        let len = iv.len() as int;
        let ii = i as int;
        assert(ii / 3 == len / 3) by (nonlinear_arith)
            requires
                ii % 3 == 0,
                0 <= ii <= len,
                len - ii < 3,
        ;
    }
    sum
}

fn mesh_contains(m: &FloorMesh, x: i64, y: i64) -> (r: bool)
    requires
        mesh_in_range(*m),
        coord_ok(x as int),
        coord_ok(y as int),
    ensures
        r == mesh_hit(*m, x as int, y as int),
{
    let ghost pv = mesh_plan(*m);
    let ghost iv = m.indices@;
    let mut i: usize = 0;
    while m.indices.len() - i >= 3
        invariant
            pv == mesh_plan(*m),
            iv == m.indices@,
            mesh_in_range(*m),
            coord_ok(x as int),
            coord_ok(y as int),
            i % 3 == 0,
            0 <= i <= iv.len(),
            forall|k: int| 0 <= k < i / 3 ==> !#[trigger] tri_at(*m, k, x as int, y as int),
        decreases iv.len() - i,
    {
        let ia = m.indices[i] as usize;
        let ib = m.indices[i + 1] as usize;
        let ic = m.indices[i + 2] as usize;
        let a = m.positions[ia];
        let b = m.positions[ib];
        let c = m.positions[ic];
        proof {
            assert(pv[iv[i as int] as int] == a@);
            assert(pv[iv[i + 1] as int] == b@);
            assert(pv[iv[i + 2] as int] == c@);
            assert(map_coord_ok(m.positions@[ia as int][0] as int));
            assert(map_coord_ok(m.positions@[ib as int][0] as int));
            assert(map_coord_ok(m.positions@[ic as int][0] as int));
            assert(3 * (i as int / 3) == i);
        }
        if tri_contains_exec(a, b, c, x, y) {
            proof {
                let k = i as int / 3;
                assert(tri_at(*m, k, x as int, y as int));
                assert(k < tri_count(iv)) by (nonlinear_arith)
                    requires
                        k == i as int / 3,
                        i % 3 == 0,
                        i + 3 <= iv.len(),
                        tri_count(iv) == iv.len() as int / 3,
                ;
            }
            return true;
        }
        proof {
            assert((i + 3) as int / 3 == i as int / 3 + 1);
        }
        i = i + 3;
    }
    proof {
        let len = iv.len() as int;
        let ii = i as int;
        assert(ii / 3 == len / 3) by (nonlinear_arith)
            requires
                ii % 3 == 0,
                0 <= ii <= len,
                len - ii < 3,
        ;
    }
    false
}

impl SpatialIndex {
    /// Vertex nearest to (x, y), if it lies within `max_distance`.
    pub fn nearest_vertex(&self, x: i64, y: i64, max_distance: i64) -> (r: Option<VertexId>)
        requires
            self.wf(),
            coord_ok(x as int),
            coord_ok(y as int),
            radius_ok(max_distance as int),
        ensures
            r is Some <==> point_within(self.vertex_set(), x as int, y as int, max_distance * max_distance),
            r matches Some(v) ==> point_pick(self.vertex_set(), x as int, y as int, max_distance * max_distance, v.0),
    {
        match nearest_within(&self.vertices, x, y, max_distance) {
            Some(id) => Some(VertexId(id)),
            None => None,
        }
    }

    /// Thing nearest to (x, y), if it lies within `max_distance`.
    pub fn nearest_thing(&self, x: i64, y: i64, max_distance: i64) -> (r: Option<ThingId>)
        requires
            self.wf(),
            coord_ok(x as int),
            coord_ok(y as int),
            radius_ok(max_distance as int),
        ensures
            r is Some <==> point_within(self.thing_set(), x as int, y as int, max_distance * max_distance),
            r matches Some(t) ==> point_pick(self.thing_set(), x as int, y as int, max_distance * max_distance, t.0),
    {
        match nearest_within(&self.things, x, y, max_distance) {
            Some(id) => Some(ThingId(id)),
            None => None,
        }
    }

    /// Linedef nearest to (x, y) among those within `max_distance`. The
    /// tree proposes the linedefs whose box meets the square round the
    /// point, which holds every linedef in range, and the exact distance
    /// decides.
    pub fn nearest_linedef(&self, x: i64, y: i64, max_distance: i64) -> (res: Option<LinedefId>)
        requires
            self.wf(),
            coord_ok(x as int),
            coord_ok(y as int),
            radius_ok(max_distance as int),
        ensures
            res is Some <==> seg_found(self.segment_set(), x as int, y as int, max_distance as int),
            res matches Some(l) ==> seg_pick(self.segment_set(), x as int, y as int, max_distance as int, l.0),
    {
        let ghost m = segment_entries(self.linedefs);
        let r = max_distance;
        let cs = segments_meeting(&self.linedefs, x - r, y - r, x + r, y + r);
        let ghost meets = |e: (i64, i64, i64, i64, usize)| segment_box_meets(e, (x - r) as int, (y - r) as int, (x + r) as int, (y + r) as int);
        proof {
            assert forall|j: int| 0 <= j < cs@.len() implies m.contains(#[trigger] cs@[j]) && meets(cs@[j]) by {
                assert(cs@.contains(cs@[j]));
                assert(cs@.to_multiset().count(cs@[j]) > 0);
            }
            assert(0 <= r * r <= 4398046511104) by (nonlinear_arith)
                requires
                    -2097152 <= r <= 2097152,
            ;
        }
        let r2: i128 = (r as i128) * (r as i128);
        let mut best: Option<(usize, i128, i128)> = None;
        let ghost mut bj: int = 0;
        let mut i: usize = 0;
        while i < cs.len()
            invariant
                0 <= i <= cs@.len(),
                self.wf(),
                m == segment_entries(self.linedefs),
                coord_ok(x as int),
                coord_ok(y as int),
                r2 == r * r,
                0 <= r2 <= 4398046511104,
                forall|j: int| 0 <= j < cs@.len() ==> m.contains(#[trigger] cs@[j]) && meets(cs@[j]),
                best is None ==> forall|j: int| 0 <= j < i ==> !(seg_dist(#[trigger] cs@[j], x as int, y as int).0 <= r2 * seg_dist(cs@[j], x as int, y as int).1),
                best matches Some(b) ==> {
                    &&& 0 <= bj < i
                    &&& cs@[bj].4 == b.0
                    &&& seg_dist(cs@[bj], x as int, y as int) == (b.1 as int, b.2 as int)
                    &&& 0 <= b.1 <= 4835703278458516698824704
                    &&& 1 <= b.2 <= 2199023255552
                    &&& seg_dist(cs@[bj], x as int, y as int).0 <= r2 * seg_dist(cs@[bj], x as int, y as int).1
                    &&& forall|j: int| 0 <= j < i && seg_dist(#[trigger] cs@[j], x as int, y as int).0 <= r2 * seg_dist(cs@[j], x as int, y as int).1
                        ==> seg_le(cs@[bj], cs@[j], x as int, y as int)
                },
            decreases cs@.len() - i,
        {
            let c = cs[i];
            proof {
                assert(m.contains(cs@[i as int]));
            }
            let (n, d) = seg_dist_exec(c, x, y);
            proof {
                assert(r2 * d <= 4398046511104 * 2199023255552) by (nonlinear_arith)
                    requires
                        0 <= r2 <= 4398046511104,
                        1 <= d <= 2199023255552,
                ;
            }
            if n <= r2 * d {
                let keep = match best {
                    Some(b) => {
                        proof {
                            assert(b.1 * d <= 4835703278458516698824704 * 2199023255552) by (nonlinear_arith)
                                requires
                                    0 <= b.1 <= 4835703278458516698824704,
                                    1 <= d <= 2199023255552,
                            ;
                            assert(n * b.2 <= 4835703278458516698824704 * 2199023255552) by (nonlinear_arith)
                                requires
                                    0 <= n <= 4835703278458516698824704,
                                    1 <= b.2 <= 2199023255552,
                            ;
                        }
                        b.1 * d <= n * b.2
                    },
                    None => false,
                };
                if !keep {
                    proof {
                        if best is Some {
                            let b = best->0;
                            assert forall|j: int| 0 <= j < i && seg_dist(#[trigger] cs@[j], x as int, y as int).0 <= r2 * seg_dist(cs@[j], x as int, y as int).1
                                implies seg_le(cs@[i as int], cs@[j], x as int, y as int) by {
                                let dj = seg_dist(cs@[j], x as int, y as int);
                                assert(seg_le(cs@[bj], cs@[j], x as int, y as int));
                                lemma_frac_trans(n as int, d as int, b.1 as int, b.2 as int, dj.0, dj.1);
                            }
                        }
                    }
                    best = Some((c.4, n, d));
                    proof {
                        bj = i as int;
                    }
                }
            }
            i = i + 1;
        }
        proof {
            assert forall|f: (i64, i64, i64, i64, usize)| #[trigger] m.contains(f) && seg_within(f, x as int, y as int, r as int)
                implies exists|j: int| 0 <= j < cs@.len() && cs@[j] == f by {
                lemma_near_segment_meets_box(f, x as int, y as int, r as int);
                assert(meets(f));
                assert(m.filter(meets).count(f) > 0);
                assert(cs@.to_multiset().count(f) > 0);
                assert(cs@.contains(f));
            }
        }
        match best {
            Some(b) => {
                proof {
                    let e = cs@[bj];
                    assert(m.contains(e) && e.4 == b.0 && seg_within(e, x as int, y as int, r as int));
                    assert forall|f: (i64, i64, i64, i64, usize)| #[trigger] m.contains(f) && seg_within(f, x as int, y as int, r as int)
                        implies seg_le(e, f, x as int, y as int) by {
                        let j = choose|j: int| 0 <= j < cs@.len() && cs@[j] == f;
                        assert(seg_dist(cs@[j], x as int, y as int).0 <= r2 * seg_dist(cs@[j], x as int, y as int).1);
                    }
                }
                Some(LinedefId(b.0))
            },
            None => {
                proof {
                    assert forall|f: (i64, i64, i64, i64, usize)| #[trigger] m.contains(f) implies !seg_within(f, x as int, y as int, r as int) by {
                        if seg_within(f, x as int, y as int, r as int) {
                            let j = choose|j: int| 0 <= j < cs@.len() && cs@[j] == f;
                            assert(!(seg_dist(cs@[j], x as int, y as int).0 <= r2 * seg_dist(cs@[j], x as int, y as int).1));
                        }
                    }
                }
                None
            },
        }
    }
}


/// Payloads of point entries, as vertex ids.
pub open spec fn vertex_ids(s: Seq<(i64, i64, usize)>) -> Seq<VertexId> {
    s.map_values(|e: (i64, i64, usize)| VertexId(e.2))
}

/// (px, py) lies in the rectangle from `min` to `max`, borders included.
pub open spec fn in_rect(px: int, py: int, min: [i64; 2], max: [i64; 2]) -> bool {
    px >= min[0] && px <= max[0] && py >= min[1] && py <= max[1]
}

/// Both ends of the segment lie in the rectangle from `min` to `max`.
pub open spec fn ends_inside(e: (i64, i64, i64, i64, usize), min: [i64; 2], max: [i64; 2]) -> bool {
    in_rect(e.0 as int, e.1 as int, min, max) && in_rect(e.2 as int, e.3 as int, min, max)
}

/// Ids of the segments in `s`, in order, whose two ends lie in the
/// rectangle.
pub open spec fn ids_inside(s: Seq<(i64, i64, i64, i64, usize)>, min: [i64; 2], max: [i64; 2]) -> Seq<LinedefId>
    decreases s.len(),
{
    if s.len() == 0 {
        Seq::empty()
    } else {
        let prev = ids_inside(s.drop_last(), min, max);
        let e = s.last();
        if ends_inside(e, min, max) {
            prev.push(LinedefId(e.4))
        } else {
            prev
        }
    }
}

proof fn lemma_filtered_points_distinct(
    m: Multiset<(i64, i64, usize)>,
    f: spec_fn((i64, i64, usize)) -> bool,
    s: Seq<(i64, i64, usize)>,
)
    requires
        point_ids_distinct(m),
        s.to_multiset() == m.filter(f),
    ensures
        vertex_ids(s).no_duplicates(),
{
    assert forall|x: (i64, i64, usize)| s.to_multiset().contains(x) implies s.to_multiset().count(x) == 1 by {
        assert(m.contains(x));
    }
    s.lemma_multiset_has_no_duplicates_conv();
    let ids = vertex_ids(s);
    assert forall|i: int, j: int| 0 <= i < ids.len() && 0 <= j < ids.len() && i != j implies ids[i] != ids[j] by {
        assert(s.contains(s[i]) && s.contains(s[j]));
        assert(s.to_multiset().contains(s[i]) && s.to_multiset().contains(s[j]));
        assert(m.filter(f).count(s[i]) > 0 && m.filter(f).count(s[j]) > 0);
        assert(m.contains(s[i]) && m.contains(s[j]));
    }
}

proof fn lemma_ids_inside_distinct(s: Seq<(i64, i64, i64, i64, usize)>, min: [i64; 2], max: [i64; 2])
    requires
        forall|i: int, j: int| 0 <= i < s.len() && 0 <= j < s.len() && i != j ==> (#[trigger] s[i]).4 != (#[trigger] s[j]).4,
    ensures
        ids_inside(s, min, max).no_duplicates(),
        forall|k: int|
            0 <= k < ids_inside(s, min, max).len() ==> exists|j: int|
                0 <= j < s.len() && #[trigger] ids_inside(s, min, max)[k] == LinedefId(s[j].4),
    decreases s.len(),
{
    if s.len() > 0 {
        let t = s.drop_last();
        assert forall|i: int, j: int| 0 <= i < t.len() && 0 <= j < t.len() && i != j implies (#[trigger] t[i]).4 != (
        #[trigger] t[j]).4 by {
            assert(t[i] == s[i] && t[j] == s[j]);
        }
        lemma_ids_inside_distinct(t, min, max);
        let prev = ids_inside(t, min, max);
        let cur = ids_inside(s, min, max);
        let last = LinedefId(s.last().4);
        assert forall|k: int| 0 <= k < prev.len() implies exists|j: int|
            0 <= j < s.len() && #[trigger] prev[k] == LinedefId(s[j].4) by {
            let j = choose|j: int| 0 <= j < t.len() && prev[k] == LinedefId(t[j].4);
            assert(t[j] == s[j]);
        }
        if ends_inside(s.last(), min, max) {
            assert(cur == prev.push(last));
            assert forall|k: int| 0 <= k < prev.len() implies prev[k] != last by {
                let j = choose|j: int| 0 <= j < t.len() && prev[k] == LinedefId(t[j].4);
                assert(t[j] == s[j]);
                assert(s[j].4 != s[s.len() - 1].4);
            }
            assert forall|a: int, b: int| 0 <= a < cur.len() && 0 <= b < cur.len() && a != b implies cur[a] != cur[b] by {
                if a < prev.len() && b < prev.len() {
                    assert(cur[a] == prev[a] && cur[b] == prev[b]);
                } else if a < prev.len() {
                    assert(cur[a] == prev[a] && cur[b] == last);
                } else {
                    assert(cur[b] == prev[b] && cur[a] == last);
                }
            }
            assert forall|k: int| 0 <= k < cur.len() implies exists|j: int|
                0 <= j < s.len() && #[trigger] cur[k] == LinedefId(s[j].4) by {
                if k < prev.len() {
                    assert(cur[k] == prev[k]);
                    let j = choose|j: int| 0 <= j < s.len() && #[trigger] prev[k] == LinedefId(s[j].4);
                } else {
                    assert(cur[k] == LinedefId(s[s.len() - 1].4));
                }
            }
        }
    }
}

proof fn lemma_filtered_segments_distinct(
    m: Multiset<(i64, i64, i64, i64, usize)>,
    f: spec_fn((i64, i64, i64, i64, usize)) -> bool,
    s: Seq<(i64, i64, i64, i64, usize)>,
    min: [i64; 2],
    max: [i64; 2],
)
    requires
        segment_ids_distinct(m),
        s.to_multiset() == m.filter(f),
    ensures
        ids_inside(s, min, max).no_duplicates(),
{
    assert forall|x: (i64, i64, i64, i64, usize)| s.to_multiset().contains(x) implies s.to_multiset().count(x) == 1 by {
        assert(m.contains(x));
    }
    s.lemma_multiset_has_no_duplicates_conv();
    assert forall|i: int, j: int| 0 <= i < s.len() && 0 <= j < s.len() && i != j implies (#[trigger] s[i]).4 != (
    #[trigger] s[j]).4 by {
        assert(s.contains(s[i]) && s.contains(s[j]));
        assert(s.to_multiset().contains(s[i]) && s.to_multiset().contains(s[j]));
        assert(m.filter(f).count(s[i]) > 0 && m.filter(f).count(s[j]) > 0);
        assert(m.contains(s[i]) && m.contains(s[j]));
    }
    lemma_ids_inside_distinct(s, min, max);
}

/// Fixed-point radius within which a thing is picked: 24 map units.
pub const THING_PICK_RADIUS: i64 = 192;

impl SpatialIndex {
    /// Sector whose mesh contains (x, y); of several, the one whose mesh has
    /// the smallest area.
    pub fn sector_at(&self, x: i64, y: i64) -> (res: Option<SectorId>)
        requires
            self.wf(),
            coord_ok(x as int),
            coord_ok(y as int),
        ensures
            res is Some <==> sector_found(self.box_set(), self.meshes(), x as int, y as int),
            res matches Some(s) ==> sector_pick(self.box_set(), self.meshes(), x as int, y as int, s),
    {
        let ghost m = box_entries(self.sectors);
        let ghost ms = self.sector_meshes@;
        let cs = boxes_at(&self.sectors, x, y);
        let ghost holds = |e: (i64, i64, i64, i64, usize)| e.0 <= x <= e.2 && e.1 <= y <= e.3;
        proof {
            assert forall|j: int| 0 <= j < cs@.len() implies m.contains(#[trigger] cs@[j]) && holds(cs@[j]) by {
                assert(cs@.contains(cs@[j]));
                assert(cs@.to_multiset().count(cs@[j]) > 0);
            }
        }
        let mut best: Option<(SectorId, i128)> = None;
        let ghost mut bj: int = 0;
        let mut i: usize = 0;
        while i < cs.len()
            invariant
                0 <= i <= cs@.len(),
                self.wf(),
                m == box_entries(self.sectors),
                ms == self.sector_meshes@,
                coord_ok(x as int),
                coord_ok(y as int),
                forall|j: int| 0 <= j < cs@.len() ==> m.contains(#[trigger] cs@[j]) && cs@[j].0 <= x <= cs@[j].2 && cs@[j].1 <= y <= cs@[j].3,
                best is None ==> forall|j: int| 0 <= j < i ==> !box_hit(ms, #[trigger] cs@[j], x as int, y as int),
                best matches Some(b) ==> {
                    &&& 0 <= bj < i
                    &&& box_hit(ms, cs@[bj], x as int, y as int)
                    &&& ms[cs@[bj].4 as int].0 == b.0
                    &&& entry_area2(ms, cs@[bj]) == b.1
                    &&& forall|j: int| 0 <= j < i && box_hit(ms, #[trigger] cs@[j], x as int, y as int) ==> entry_area2(ms, cs@[bj]) <= entry_area2(ms, cs@[j])
                },
            decreases cs@.len() - i,
        {
            let c = cs[i];
            proof {
                assert(m.contains(cs@[i as int]));
            }
            let entry = &self.sector_meshes[c.4];
            proof {
                assert(mesh_in_range(ms[c.4 as int].1));
            }
            if mesh_contains(&entry.1, x, y) {
                let area = mesh_area2_exec(&entry.1);
                let keep = match best {
                    Some(b) => b.1 <= area,
                    None => false,
                };
                proof {
                    assert(box_hit(ms, cs@[i as int], x as int, y as int));
                    assert(entry_area2(ms, cs@[i as int]) == area);
                }
                if !keep {
                    best = Some((entry.0, area));
                    proof {
                        bj = i as int;
                    }
                }
            } else {
                proof {
                    assert(!box_hit(ms, cs@[i as int], x as int, y as int));
                }
            }
            i = i + 1;
        }
        proof {
            assert forall|f: (i64, i64, i64, i64, usize)| #[trigger] m.contains(f) && box_hit(ms, f, x as int, y as int)
                implies exists|j: int| 0 <= j < cs@.len() && cs@[j] == f by {
                assert(holds(f));
                assert(m.filter(holds).count(f) > 0);
                assert(cs@.to_multiset().count(f) > 0);
                assert(cs@.contains(f));
            }
        }
        match best {
            Some(b) => {
                proof {
                    let e = cs@[bj];
                    assert(m.contains(e));
                    assert forall|f: (i64, i64, i64, i64, usize)| #[trigger] m.contains(f) && box_hit(ms, f, x as int, y as int)
                        implies entry_area2(ms, e) <= entry_area2(ms, f) by {
                        let j = choose|j: int| 0 <= j < cs@.len() && cs@[j] == f;
                        assert(box_hit(ms, cs@[j], x as int, y as int));
                    }
                }
                Some(b.0)
            },
            None => {
                proof {
                    assert forall|f: (i64, i64, i64, i64, usize)| #[trigger] m.contains(f) implies !box_hit(ms, f, x as int, y as int) by {
                        if box_hit(ms, f, x as int, y as int) {
                            let j = choose|j: int| 0 <= j < cs@.len() && cs@[j] == f;
                            assert(!box_hit(ms, cs@[j], x as int, y as int));
                        }
                    }
                }
                None
            },
        }
    }

    /// Vertices inside the rectangle spanned by `min` and `max`, borders
    /// included, in the tree's order.
    pub fn vertices_in_rect(&self, min: [i64; 2], max: [i64; 2]) -> (r: Vec<VertexId>)
        requires
            self.wf(),
        ensures
            r@.no_duplicates(),
            exists|s: Seq<(i64, i64, usize)>|
                #[trigger] vertex_ids(s) == r@ && s.to_multiset() == self.vertex_set().filter(
                    |e: (i64, i64, usize)| in_corners(e.0 as int, e.1 as int, min[0] as int, min[1] as int, max[0] as int, max[1] as int),
                ),
    {
        let ps = points_in_box(&self.vertices, min[0], min[1], max[0], max[1]);
        let mut out: Vec<VertexId> = Vec::new();
        let mut i: usize = 0;
        while i < ps.len()
            invariant
                0 <= i <= ps@.len(),
                out@ == vertex_ids(ps@.subrange(0, i as int)),
            decreases ps@.len() - i,
        {
            out.push(VertexId(ps[i].2));
            assert(vertex_ids(ps@.subrange(0, i + 1)) =~= vertex_ids(ps@.subrange(0, i as int)).push(VertexId(ps@[i as int].2)));
            i = i + 1;
        }
        assert(ps@.subrange(0, ps@.len() as int) =~= ps@);
        assert(vertex_ids(ps@) == out@);
        proof {
            lemma_filtered_points_distinct(
                self.vertex_set(),
                |e: (i64, i64, usize)| in_corners(e.0 as int, e.1 as int, min[0] as int, min[1] as int, max[0] as int, max[1] as int),
                ps@,
            );
        }
        out
    }

    /// Linedefs with both ends inside the rectangle from `min` to `max`,
    /// borders included, in the tree's order.
    pub fn linedefs_in_rect(&self, min: [i64; 2], max: [i64; 2]) -> (r: Vec<LinedefId>)
        requires
            self.wf(),
        ensures
            r@.no_duplicates(),
            exists|s: Seq<(i64, i64, i64, i64, usize)>|
                #[trigger] ids_inside(s, min, max) == r@ && s.to_multiset() == self.segment_set().filter(
                    |e: (i64, i64, i64, i64, usize)| segment_box_meets(e, min[0] as int, min[1] as int, max[0] as int, max[1] as int),
                ),
    {
        let cs = segments_meeting(&self.linedefs, min[0], min[1], max[0], max[1]);
        let mut out: Vec<LinedefId> = Vec::new();
        let mut i: usize = 0;
        while i < cs.len()
            invariant
                0 <= i <= cs@.len(),
                out@ == ids_inside(cs@.subrange(0, i as int), min, max),
            decreases cs@.len() - i,
        {
            let c = cs[i];
            assert(cs@.subrange(0, i + 1).drop_last() =~= cs@.subrange(0, i as int));
            if c.0 >= min[0] && c.0 <= max[0] && c.1 >= min[1] && c.1 <= max[1] && c.2 >= min[0] && c.2 <= max[0] && c.3 >= min[1]
                && c.3 <= max[1] {
                out.push(LinedefId(c.4));
            }
            i = i + 1;
        }
        assert(cs@.subrange(0, cs@.len() as int) =~= cs@);
        proof {
            lemma_filtered_segments_distinct(
                self.segment_set(),
                |e: (i64, i64, i64, i64, usize)| segment_box_meets(e, min[0] as int, min[1] as int, max[0] as int, max[1] as int),
                cs@,
                min,
                max,
            );
        }
        out
    }

    /// What (x, y) hits: a thing within 24 map units first, then a vertex
    /// within `vertex_radius`, then a linedef within `linedef_radius`, then
    /// the sector under it.
    pub fn hit_test(&self, x: i64, y: i64, vertex_radius: i64, linedef_radius: i64) -> (r: Option<Hit>)
        requires
            self.wf(),
            coord_ok(x as int),
            coord_ok(y as int),
            radius_ok(vertex_radius as int),
            radius_ok(linedef_radius as int),
        ensures
            match r {
                Some(Hit::Thing(t)) => point_pick(self.thing_set(), x as int, y as int, THING_PICK_RADIUS * THING_PICK_RADIUS, t.0),
                Some(Hit::Vertex(v)) => !point_within(self.thing_set(), x as int, y as int, THING_PICK_RADIUS * THING_PICK_RADIUS)
                    && point_pick(self.vertex_set(), x as int, y as int, vertex_radius * vertex_radius, v.0),
                Some(Hit::Linedef(l)) => !point_within(self.thing_set(), x as int, y as int, THING_PICK_RADIUS * THING_PICK_RADIUS)
                    && !point_within(self.vertex_set(), x as int, y as int, vertex_radius * vertex_radius)
                    && seg_pick(self.segment_set(), x as int, y as int, linedef_radius as int, l.0),
                Some(Hit::Sector(s)) => !point_within(self.thing_set(), x as int, y as int, THING_PICK_RADIUS * THING_PICK_RADIUS)
                    && !point_within(self.vertex_set(), x as int, y as int, vertex_radius * vertex_radius)
                    && !seg_found(self.segment_set(), x as int, y as int, linedef_radius as int)
                    && sector_pick(self.box_set(), self.meshes(), x as int, y as int, s),
                None => !point_within(self.thing_set(), x as int, y as int, THING_PICK_RADIUS * THING_PICK_RADIUS)
                    && !point_within(self.vertex_set(), x as int, y as int, vertex_radius * vertex_radius)
                    && !seg_found(self.segment_set(), x as int, y as int, linedef_radius as int)
                    && !sector_found(self.box_set(), self.meshes(), x as int, y as int),
            },
    {
        if let Some(t) = self.nearest_thing(x, y, THING_PICK_RADIUS) {
            return Some(Hit::Thing(t));
        }
        if let Some(v) = self.nearest_vertex(x, y, vertex_radius) {
            return Some(Hit::Vertex(v));
        }
        if let Some(l) = self.nearest_linedef(x, y, linedef_radius) {
            return Some(Hit::Linedef(l));
        }
        match self.sector_at(x, y) {
            Some(s) => Some(Hit::Sector(s)),
            None => None,
        }
    }
}


impl SpatialIndex {
    /// The element under (x, y) that the edit mode picks: the nearest vertex
    /// within `vertex_radius`, the nearest linedef within `linedef_radius`,
    /// the sector, or the nearest thing within 24 map units.
    pub fn hit_for_mode(&self, mode: EditMode, x: i64, y: i64, vertex_radius: i64, linedef_radius: i64) -> (r: Option<HighlightKind>)
        requires
            self.wf(),
            coord_ok(x as int),
            coord_ok(y as int),
            radius_ok(vertex_radius as int),
            radius_ok(linedef_radius as int),
        ensures
            match mode {
                EditMode::Vertices => match r {
                    Some(HighlightKind::Vertex(v)) => point_pick(self.vertex_set(), x as int, y as int, vertex_radius * vertex_radius, v.0),
                    None => !point_within(self.vertex_set(), x as int, y as int, vertex_radius * vertex_radius),
                    _ => false,
                },
                EditMode::Linedefs => match r {
                    Some(HighlightKind::Linedef(l)) => seg_pick(self.segment_set(), x as int, y as int, linedef_radius as int, l.0),
                    None => !seg_found(self.segment_set(), x as int, y as int, linedef_radius as int),
                    _ => false,
                },
                EditMode::Sectors => match r {
                    Some(HighlightKind::Sector(s)) => sector_pick(self.box_set(), self.meshes(), x as int, y as int, s),
                    None => !sector_found(self.box_set(), self.meshes(), x as int, y as int),
                    _ => false,
                },
                EditMode::Things => match r {
                    Some(HighlightKind::Thing(t)) => point_pick(self.thing_set(), x as int, y as int, THING_PICK_RADIUS * THING_PICK_RADIUS, t.0),
                    None => !point_within(self.thing_set(), x as int, y as int, THING_PICK_RADIUS * THING_PICK_RADIUS),
                    _ => false,
                },
            },
    {
        match mode {
            EditMode::Vertices => match self.nearest_vertex(x, y, vertex_radius) {
                Some(v) => Some(HighlightKind::Vertex(v)),
                None => None,
            },
            EditMode::Linedefs => match self.nearest_linedef(x, y, linedef_radius) {
                Some(l) => Some(HighlightKind::Linedef(l)),
                None => None,
            },
            EditMode::Sectors => match self.sector_at(x, y) {
                Some(s) => Some(HighlightKind::Sector(s)),
                None => None,
            },
            EditMode::Things => match self.nearest_thing(x, y, THING_PICK_RADIUS) {
                Some(t) => Some(HighlightKind::Thing(t)),
                None => None,
            },
        }
    }
}


// ---------------------------------------------------------------------------
// Laws.

/// A coordinate within distance `rr` (squared: `d2 <= rr * rr`, `rr >= 0`)
/// lies within `rr` along each axis.
proof fn lemma_axis_within(u: int, w: int, rr: int)
    requires
        rr >= 0,
        u * u + w * w <= rr * rr,
    ensures
        -rr <= u <= rr,
{
    assert(-rr <= u <= rr) by (nonlinear_arith)
        requires
            rr >= 0,
            u * u + w * w <= rr * rr,
    ;
}

/// A point `p` of the segment's box within `rr` of (x, y) along both axes
/// makes the box meet the square of half-side `rr` round (x, y).
proof fn lemma_point_meets(e: (i64, i64, i64, i64, usize), x: int, y: int, r: int, px: int, py: int)
    requires
        min2(e.0 as int, e.2 as int) <= px <= max2(e.0 as int, e.2 as int),
        min2(e.1 as int, e.3 as int) <= py <= max2(e.1 as int, e.3 as int),
        r >= 0 ==> x - r <= px <= x + r && y - r <= py <= y + r,
        r < 0 ==> x + r <= px <= x - r && y + r <= py <= y - r,
    ensures
        segment_box_meets(e, x - r, y - r, x + r, y + r),
{
}

proof fn lemma_ids_inside_members(s: Seq<(i64, i64, i64, i64, usize)>, min: [i64; 2], max: [i64; 2])
    ensures
        forall|k: int| 0 <= k < s.len() && ends_inside(#[trigger] s[k], min, max) ==> ids_inside(s, min, max).contains(LinedefId(s[k].4)),
        forall|id: LinedefId| #[trigger] ids_inside(s, min, max).contains(id) ==> exists|k: int|
            0 <= k < s.len() && ends_inside(#[trigger] s[k], min, max) && s[k].4 == id.0,
    decreases s.len(),
{
    if s.len() > 0 {
        let t = s.drop_last();
        lemma_ids_inside_members(t, min, max);
        let prev = ids_inside(t, min, max);
        assert forall|k: int| 0 <= k < s.len() && ends_inside(#[trigger] s[k], min, max) implies ids_inside(s, min, max).contains(
            LinedefId(s[k].4),
        ) by {
            if k < s.len() - 1 {
                assert(t[k] == s[k]);
                let j = choose|j: int| 0 <= j < prev.len() && prev[j] == LinedefId(t[k].4);
                if ends_inside(s.last(), min, max) {
                    assert(ids_inside(s, min, max)[j] == prev[j]);
                } else {
                    assert(ids_inside(s, min, max)[j] == prev[j]);
                }
            } else {
                assert(ids_inside(s, min, max).last() == LinedefId(s[k].4));
            }
        }
        assert forall|id: LinedefId| #[trigger] ids_inside(s, min, max).contains(id) implies exists|k: int|
            0 <= k < s.len() && ends_inside(#[trigger] s[k], min, max) && s[k].4 == id.0 by {
            let j = choose|j: int| 0 <= j < ids_inside(s, min, max).len() && ids_inside(s, min, max)[j] == id;
            if j < prev.len() {
                assert(prev.contains(id));
                let k = choose|k: int| 0 <= k < t.len() && ends_inside(#[trigger] t[k], min, max) && t[k].4 == id.0;
                assert(s[k] == t[k]);
            } else {
                assert(ends_inside(s[s.len() - 1], min, max));
            }
        }
    }
}

/// Rectangle selection of linedefs is exact: a linedef of the index is
/// returned when both of its ends lie in the rectangle, and every id returned
/// is that of such a linedef. (Stated over what `linedefs_in_rect` ensures.)
pub proof fn lemma_rect_select_exact(
    m: Multiset<(i64, i64, i64, i64, usize)>,
    s: Seq<(i64, i64, i64, i64, usize)>,
    min: [i64; 2],
    max: [i64; 2],
)
    requires
        s.to_multiset() == m.filter(
            |e: (i64, i64, i64, i64, usize)| segment_box_meets(e, min[0] as int, min[1] as int, max[0] as int, max[1] as int),
        ),
    ensures
        forall|e: (i64, i64, i64, i64, usize)| #[trigger] m.contains(e) && ends_inside(e, min, max) ==> ids_inside(s, min, max).contains(
            LinedefId(e.4),
        ),
        forall|id: LinedefId| #[trigger] ids_inside(s, min, max).contains(id) ==> exists|e: (i64, i64, i64, i64, usize)|
            #[trigger] m.contains(e) && ends_inside(e, min, max) && e.4 == id.0,
{
    let f = |e: (i64, i64, i64, i64, usize)| segment_box_meets(e, min[0] as int, min[1] as int, max[0] as int, max[1] as int);
    lemma_ids_inside_members(s, min, max);
    assert forall|e: (i64, i64, i64, i64, usize)| #[trigger] m.contains(e) && ends_inside(e, min, max) implies ids_inside(s, min, max).contains(
        LinedefId(e.4),
    ) by {
        assert(f(e));
        assert(m.filter(f).count(e) == m.count(e));
        assert(s.to_multiset().count(e) > 0);
        assert(s.contains(e));
        let k = choose|k: int| 0 <= k < s.len() && s[k] == e;
        assert(ends_inside(s[k], min, max));
    }
    assert forall|id: LinedefId| #[trigger] ids_inside(s, min, max).contains(id) implies exists|e: (i64, i64, i64, i64, usize)|
        #[trigger] m.contains(e) && ends_inside(e, min, max) && e.4 == id.0 by {
        let k = choose|k: int| 0 <= k < s.len() && ends_inside(#[trigger] s[k], min, max) && s[k].4 == id.0;
        let e = s[k];
        assert(s.contains(e));
        assert(s.to_multiset().count(e) > 0);
        assert(m.filter(f).count(e) > 0);
        assert(m.count(e) > 0);
        assert(m.contains(e));
    }
}

/// Every segment within distance `r` of (x, y) has a bounding box that
/// meets the square of half-side `r` round the point, so the candidates
/// the tree proposes miss no segment in range.
pub proof fn lemma_near_segment_meets_box(e: (i64, i64, i64, i64, usize), x: int, y: int, r: int)
    requires
        seg_dist(e, x, y).0 <= r * r * seg_dist(e, x, y).1,
    ensures
        segment_box_meets(e, x - r, y - r, x + r, y + r),
{
    let rr = if r >= 0 { r } else { -r };
    assert(rr * rr == r * r) by (nonlinear_arith)
        requires
            rr == if r >= 0 { r } else { -r },
    ;
    let ax = e.0 as int;
    let ay = e.1 as int;
    let bx = e.2 as int;
    let by = e.3 as int;
    let dx = bx - ax;
    let dy = by - ay;
    let ex = x - ax;
    let ey = y - ay;
    let len2 = dx * dx + dy * dy;
    let dot = ex * dx + ey * dy;
    if len2 == 0 || dot <= 0 {
        lemma_axis_within(ex, ey, rr);
        lemma_axis_within(ey, ex, rr);
        lemma_point_meets(e, x, y, r, ax, ay);
    } else if dot >= len2 {
        lemma_axis_within(x - bx, y - by, rr);
        lemma_axis_within(y - by, x - bx, rr);
        lemma_point_meets(e, x, y, r, bx, by);
    } else {
        let cross = ex * dy - ey * dx;
        assert(len2 > 0) by (nonlinear_arith)
            requires
                len2 == dx * dx + dy * dy,
                len2 != 0,
        ;
        assert(cross * cross <= rr * rr * len2);
        // The foot of the perpendicular, scaled by len2, relative to (x, y).
        let fx = ax * len2 + dot * dx;
        let fy = ay * len2 + dot * dy;
        assert(fx - x * len2 == dot * dx - ex * len2) by (nonlinear_arith)
            requires
                ex == x - ax,
                fx == ax * len2 + dot * dx,
        ;
        assert(fy - y * len2 == dot * dy - ey * len2) by (nonlinear_arith)
            requires
                ey == y - ay,
                fy == ay * len2 + dot * dy,
        ;
        assert((ex * dx + ey * dy) * dx - ex * (dx * dx + dy * dy) == -dy * (ex * dy - ey * dx)) by (nonlinear_arith);
        assert((ex * dx + ey * dy) * dy - ey * (dx * dx + dy * dy) == dx * (ex * dy - ey * dx)) by (nonlinear_arith);
        let gx = fx - x * len2;
        let gy = fy - y * len2;
        assert(gx * gx + gy * gy == cross * cross * len2) by (nonlinear_arith)
            requires
                gx == -dy * cross,
                gy == dx * cross,
                len2 == dx * dx + dy * dy,
        ;
        assert(gx * gx + gy * gy <= (rr * len2) * (rr * len2)) by (nonlinear_arith)
            requires
                gx * gx + gy * gy == cross * cross * len2,
                cross * cross <= rr * rr * len2,
                len2 > 0,
        ;
        assert(rr * len2 >= 0) by (nonlinear_arith)
            requires
                rr >= 0,
                len2 > 0,
        ;
        lemma_axis_within(gx, gy, rr * len2);
        lemma_axis_within(gy, gx, rr * len2);
        // The foot lies on the segment, so inside its box (scaled by len2).
        assert(min2(ax, bx) * len2 <= fx <= max2(ax, bx) * len2) by (nonlinear_arith)
            requires
                fx == ax * len2 + dot * dx,
                dx == bx - ax,
                0 < dot < len2,
        ;
        assert(min2(ay, by) * len2 <= fy <= max2(ay, by) * len2) by (nonlinear_arith)
            requires
                fy == ay * len2 + dot * dy,
                dy == by - ay,
                0 < dot < len2,
        ;
        // Divide the four bounds by len2.
        assert(min2(ax, bx) <= x + rr && max2(ax, bx) >= x - rr) by (nonlinear_arith)
            requires
                min2(ax, bx) * len2 <= fx <= max2(ax, bx) * len2,
                -(rr * len2) <= fx - x * len2 <= rr * len2,
                len2 > 0,
        ;
        assert(min2(ay, by) <= y + rr && max2(ay, by) >= y - rr) by (nonlinear_arith)
            requires
                min2(ay, by) * len2 <= fy <= max2(ay, by) * len2,
                -(rr * len2) <= fy - y * len2 <= rr * len2,
                len2 > 0,
        ;
    }
}


/// The selection entry for what the cursor hit.
pub open spec fn highlight_of(h: Hit) -> HighlightKind {
    match h {
        Hit::Vertex(v) => HighlightKind::Vertex(v),
        Hit::Linedef(l) => HighlightKind::Linedef(l),
        Hit::Sector(s) => HighlightKind::Sector(s),
        Hit::Thing(t) => HighlightKind::Thing(t),
    }
}

impl From<Hit> for HighlightKind {
    fn from(h: Hit) -> (r: HighlightKind) {
        match h {
            Hit::Vertex(v) => HighlightKind::Vertex(v),
            Hit::Linedef(l) => HighlightKind::Linedef(l),
            Hit::Sector(s) => HighlightKind::Sector(s),
            Hit::Thing(t) => HighlightKind::Thing(t),
        }
    }
}

impl vstd::std_specs::convert::FromSpecImpl<Hit> for HighlightKind {
    open spec fn obeys_from_spec() -> bool {
        true
    }

    open spec fn from_spec(h: Hit) -> HighlightKind {
        highlight_of(h)
    }
}

// ---------------------------------------------------------------------------
// Rectangle selection.

/// Vertices of the tree inside the box spanned by `min` and `max`.
pub open spec fn rect_vertex_hits(m: Multiset<(i64, i64, usize)>, min: [i64; 2], max: [i64; 2]) -> Set<HighlightKind> {
    Set::new(
        |h: HighlightKind|
            exists|e: (i64, i64, usize)|
                #[trigger] m.contains(e) && in_corners(e.0 as int, e.1 as int, min[0] as int, min[1] as int, max[0] as int, max[1] as int)
                    && h == HighlightKind::Vertex(VertexId(e.2)),
    )
}

/// Things of the tree inside the rectangle from `min` to `max`.
pub open spec fn rect_thing_hits(m: Multiset<(i64, i64, usize)>, min: [i64; 2], max: [i64; 2]) -> Set<HighlightKind> {
    Set::new(
        |h: HighlightKind|
            exists|e: (i64, i64, usize)|
                #[trigger] m.contains(e) && in_rect(e.0 as int, e.1 as int, min, max) && h == HighlightKind::Thing(ThingId(e.2)),
    )
}

/// Linedefs of the tree with both ends inside the rectangle.
pub open spec fn rect_line_hits(m: Multiset<(i64, i64, i64, i64, usize)>, min: [i64; 2], max: [i64; 2]) -> Set<HighlightKind> {
    Set::new(
        |h: HighlightKind|
            exists|e: (i64, i64, i64, i64, usize)|
                #[trigger] m.contains(e) && ends_inside(e, min, max) && h == HighlightKind::Linedef(LinedefId(e.4)),
    )
}

/// What a rectangle drag picks in edit mode `mode`: vertices inside it,
/// linedefs with both ends inside it, things inside it; sectors are not
/// picked by rectangle.
pub open spec fn rect_hits(idx: &SpatialIndex, mode: EditMode, min: [i64; 2], max: [i64; 2]) -> Set<HighlightKind> {
    match mode {
        EditMode::Vertices => rect_vertex_hits(idx.vertex_set(), min, max),
        EditMode::Linedefs => rect_line_hits(idx.segment_set(), min, max),
        EditMode::Things => rect_thing_hits(idx.thing_set(), min, max),
        EditMode::Sectors => Set::empty(),
    }
}

/// The selection after a rectangle drag: the picked elements, added to the
/// current selection when `additive` (Shift held).
pub open spec fn rect_selection(base: Set<HighlightKind>, hits: Set<HighlightKind>, additive: bool) -> Set<HighlightKind> {
    if additive {
        base.union(hits)
    } else {
        hits
    }
}

/// Add `h` to `out` unless it is there already.
fn add_unique(out: &mut Vec<HighlightKind>, h: HighlightKind)
    requires
        old(out)@.no_duplicates(),
    ensures
        final(out)@.no_duplicates(),
        final(out)@.to_set() == old(out)@.to_set().insert(h),
{
    let mut i: usize = 0;
    while i < out.len()
        invariant
            0 <= i <= out@.len(),
            out@.no_duplicates(),
            forall|j: int| 0 <= j < i ==> out@[j] != h,
        decreases out@.len() - i,
    {
        if out[i] == h {
            assert(out@.contains(h));
            assert(out@.to_set().insert(h) =~= out@.to_set());
            return;
        }
        i = i + 1;
    }
    let ghost before = out@;
    out.push(h);
    proof {
        assert forall|a: int, b: int| 0 <= a < b < out@.len() implies out@[a] != out@[b] by {
            if b == out@.len() - 1 {
                assert(out@[a] == before[a]);
            } else {
                assert(out@[a] == before[a] && out@[b] == before[b]);
            }
        }
        assert forall|y: HighlightKind| out@.contains(y) <==> (before.contains(y) || y == h) by {
            if out@.contains(y) {
                let j = choose|j: int| 0 <= j < out@.len() && out@[j] == y;
                if j < before.len() {
                    assert(before[j] == y);
                }
            }
            if before.contains(y) {
                let j = choose|j: int| 0 <= j < before.len() && before[j] == y;
                assert(out@[j] == y);
            }
            assert(out@[out@.len() - 1] == h);
        }
        assert(out@.to_set() =~= before.to_set().insert(h));
    }
}

pub open spec fn vertex_kind_at(ps: Seq<(i64, i64, usize)>, j: int) -> HighlightKind {
    HighlightKind::Vertex(VertexId(ps[j].2))
}

pub open spec fn thing_kind_at(ps: Seq<(i64, i64, usize)>, j: int) -> HighlightKind {
    HighlightKind::Thing(ThingId(ps[j].2))
}

pub open spec fn line_kind_at(cs: Seq<(i64, i64, i64, i64, usize)>, j: int) -> HighlightKind {
    HighlightKind::Linedef(LinedefId(cs[j].4))
}

/// Add the vertices of the tree inside the box to `out`.
fn vertex_hits_into(t: &PointTree, min: [i64; 2], max: [i64; 2], out: &mut Vec<HighlightKind>)
    requires
        old(out)@.no_duplicates(),
    ensures
        final(out)@.no_duplicates(),
        final(out)@.to_set() == old(out)@.to_set().union(rect_vertex_hits(point_entries(*t), min, max)),
{
    let ghost m = point_entries(*t);
    let ghost start = out@;
    let ghost f = |e: (i64, i64, usize)| in_corners(e.0 as int, e.1 as int, min[0] as int, min[1] as int, max[0] as int, max[1] as int);
    let ps = points_in_box(t, min[0], min[1], max[0], max[1]);
    assert(ps@.to_multiset() == m.filter(f));
    let mut i: usize = 0;
    while i < ps.len()
        invariant
            0 <= i <= ps@.len(),
            out@.no_duplicates(),
            forall|h: HighlightKind|
                #![trigger out@.contains(h)]
                out@.contains(h) <==> (start.contains(h) || exists|j: int| 0 <= j < i && h == #[trigger] vertex_kind_at(ps@, j)),
        decreases ps@.len() - i,
    {
        let ghost before = out@;
        let h = HighlightKind::Vertex(VertexId(ps[i].2));
        add_unique(out, h);
        proof {
            assert forall|y: HighlightKind|
                #![trigger out@.contains(y)]
                out@.contains(y) <==> (start.contains(y) || exists|j: int| 0 <= j < i + 1 && y == #[trigger] vertex_kind_at(ps@, j)) by {
                assert(out@.to_set().contains(y) == before.to_set().insert(h).contains(y));
                assert(before.contains(y) <==> (start.contains(y) || exists|j: int| 0 <= j < i && y == #[trigger] vertex_kind_at(ps@, j)));
                if y == h {
                    assert(y == vertex_kind_at(ps@, i as int));
                }
                if exists|j: int| 0 <= j < i + 1 && y == #[trigger] vertex_kind_at(ps@, j) {
                    let j = choose|j: int| 0 <= j < i + 1 && y == #[trigger] vertex_kind_at(ps@, j);
                    if j < i {
                        assert(exists|j2: int| 0 <= j2 < i && y == #[trigger] vertex_kind_at(ps@, j2));
                    }
                }
            }
        }
        i = i + 1;
    }
    proof {
        let hits = rect_vertex_hits(m, min, max);
        assert forall|y: HighlightKind| out@.to_set().contains(y) <==> start.to_set().union(hits).contains(y) by {
            if hits.contains(y) {
                let e = choose|e: (i64, i64, usize)|
                    #[trigger] m.contains(e) && in_corners(e.0 as int, e.1 as int, min[0] as int, min[1] as int, max[0] as int, max[1] as int)
                        && y == HighlightKind::Vertex(VertexId(e.2));
                assert(f(e));
                assert(m.filter(f).count(e) > 0);
                assert(ps@.to_multiset().count(e) > 0);
                assert(ps@.contains(e));
                let j = choose|j: int| 0 <= j < ps@.len() && ps@[j] == e;
                assert(y == vertex_kind_at(ps@, j));
            }
            if exists|j: int| 0 <= j < ps@.len() && y == #[trigger] vertex_kind_at(ps@, j) {
                let j = choose|j: int| 0 <= j < ps@.len() && y == #[trigger] vertex_kind_at(ps@, j);
                let e = ps@[j];
                assert(ps@.contains(e));
                assert(ps@.to_multiset().count(e) > 0);
                assert(m.filter(f).count(e) > 0);
                assert(m.contains(e) && f(e));
                assert(hits.contains(y));
            }
        }
        assert(out@.to_set() =~= start.to_set().union(hits));
    }
}

/// Add the things of the tree inside the rectangle to `out`.
fn thing_hits_into(t: &PointTree, min: [i64; 2], max: [i64; 2], out: &mut Vec<HighlightKind>)
    requires
        old(out)@.no_duplicates(),
    ensures
        final(out)@.no_duplicates(),
        final(out)@.to_set() == old(out)@.to_set().union(rect_thing_hits(point_entries(*t), min, max)),
{
    let ghost m = point_entries(*t);
    let ghost start = out@;
    let ghost f = |e: (i64, i64, usize)| in_corners(e.0 as int, e.1 as int, min[0] as int, min[1] as int, max[0] as int, max[1] as int);
    let ps = points_in_box(t, min[0], min[1], max[0], max[1]);
    assert(ps@.to_multiset() == m.filter(f));
    let mut i: usize = 0;
    while i < ps.len()
        invariant
            0 <= i <= ps@.len(),
            out@.no_duplicates(),
            forall|h: HighlightKind|
                #![trigger out@.contains(h)]
                out@.contains(h) <==> (start.contains(h) || exists|j: int|
                    0 <= j < i && in_rect(ps@[j].0 as int, ps@[j].1 as int, min, max) && h == #[trigger] thing_kind_at(ps@, j)),
        decreases ps@.len() - i,
    {
        let ghost before = out@;
        let p = ps[i];
        if p.0 >= min[0] && p.0 <= max[0] && p.1 >= min[1] && p.1 <= max[1] {
            let h = HighlightKind::Thing(ThingId(p.2));
            add_unique(out, h);
            proof {
                assert forall|y: HighlightKind|
                    #![trigger out@.contains(y)]
                    out@.contains(y) <==> (start.contains(y) || exists|j: int|
                        0 <= j < i + 1 && in_rect(ps@[j].0 as int, ps@[j].1 as int, min, max) && y == #[trigger] thing_kind_at(ps@, j)) by {
                    assert(out@.to_set().contains(y) == before.to_set().insert(h).contains(y));
                    assert(before.contains(y) <==> (start.contains(y) || exists|j: int|
                        0 <= j < i && in_rect(ps@[j].0 as int, ps@[j].1 as int, min, max) && y == #[trigger] thing_kind_at(ps@, j)));
                    if y == h {
                        assert(y == thing_kind_at(ps@, i as int));
                    }
                    if exists|j: int| 0 <= j < i + 1 && in_rect(ps@[j].0 as int, ps@[j].1 as int, min, max) && y == #[trigger] thing_kind_at(ps@, j) {
                        let j = choose|j: int|
                            0 <= j < i + 1 && in_rect(ps@[j].0 as int, ps@[j].1 as int, min, max) && y == #[trigger] thing_kind_at(ps@, j);
                        if j < i {
                            assert(exists|j2: int|
                                0 <= j2 < i && in_rect(ps@[j2].0 as int, ps@[j2].1 as int, min, max) && y == #[trigger] thing_kind_at(ps@, j2));
                        }
                    }
                }
            }
        } else {
            proof {
                assert forall|y: HighlightKind|
                    #![trigger out@.contains(y)]
                    out@.contains(y) <==> (start.contains(y) || exists|j: int|
                        0 <= j < i + 1 && in_rect(ps@[j].0 as int, ps@[j].1 as int, min, max) && y == #[trigger] thing_kind_at(ps@, j)) by {
                    if exists|j: int| 0 <= j < i + 1 && in_rect(ps@[j].0 as int, ps@[j].1 as int, min, max) && y == #[trigger] thing_kind_at(ps@, j) {
                        let j = choose|j: int|
                            0 <= j < i + 1 && in_rect(ps@[j].0 as int, ps@[j].1 as int, min, max) && y == #[trigger] thing_kind_at(ps@, j);
                        assert(j < i);
                        assert(exists|j2: int|
                            0 <= j2 < i && in_rect(ps@[j2].0 as int, ps@[j2].1 as int, min, max) && y == #[trigger] thing_kind_at(ps@, j2));
                    }
                }
            }
        }
        i = i + 1;
    }
    proof {
        let hits = rect_thing_hits(m, min, max);
        assert forall|y: HighlightKind| out@.to_set().contains(y) <==> start.to_set().union(hits).contains(y) by {
            if hits.contains(y) {
                let e = choose|e: (i64, i64, usize)|
                    #[trigger] m.contains(e) && in_rect(e.0 as int, e.1 as int, min, max) && y == HighlightKind::Thing(ThingId(e.2));
                assert(f(e));
                assert(m.filter(f).count(e) > 0);
                assert(ps@.to_multiset().count(e) > 0);
                assert(ps@.contains(e));
                let j = choose|j: int| 0 <= j < ps@.len() && ps@[j] == e;
                assert(y == thing_kind_at(ps@, j));
            }
            if exists|j: int| 0 <= j < ps@.len() && in_rect(ps@[j].0 as int, ps@[j].1 as int, min, max) && y == #[trigger] thing_kind_at(ps@, j) {
                let j = choose|j: int|
                    0 <= j < ps@.len() && in_rect(ps@[j].0 as int, ps@[j].1 as int, min, max) && y == #[trigger] thing_kind_at(ps@, j);
                let e = ps@[j];
                assert(ps@.contains(e));
                assert(ps@.to_multiset().count(e) > 0);
                assert(m.filter(f).count(e) > 0);
                assert(m.contains(e));
                assert(hits.contains(y));
            }
        }
        assert(out@.to_set() =~= start.to_set().union(hits));
    }
}

/// Add the linedefs of the tree with both ends inside the rectangle to
/// `out`.
fn line_hits_into(t: &SegmentTree, min: [i64; 2], max: [i64; 2], out: &mut Vec<HighlightKind>)
    requires
        old(out)@.no_duplicates(),
    ensures
        final(out)@.no_duplicates(),
        final(out)@.to_set() == old(out)@.to_set().union(rect_line_hits(segment_entries(*t), min, max)),
{
    let ghost m = segment_entries(*t);
    let ghost start = out@;
    let ghost f = |e: (i64, i64, i64, i64, usize)| segment_box_meets(e, min[0] as int, min[1] as int, max[0] as int, max[1] as int);
    let cs = segments_meeting(t, min[0], min[1], max[0], max[1]);
    assert(cs@.to_multiset() == m.filter(f));
    let mut i: usize = 0;
    while i < cs.len()
        invariant
            0 <= i <= cs@.len(),
            out@.no_duplicates(),
            forall|h: HighlightKind|
                #![trigger out@.contains(h)]
                out@.contains(h) <==> (start.contains(h) || exists|j: int|
                    0 <= j < i && ends_inside(cs@[j], min, max) && h == #[trigger] line_kind_at(cs@, j)),
        decreases cs@.len() - i,
    {
        let ghost before = out@;
        let c = cs[i];
        if c.0 >= min[0] && c.0 <= max[0] && c.1 >= min[1] && c.1 <= max[1] && c.2 >= min[0] && c.2 <= max[0] && c.3 >= min[1]
            && c.3 <= max[1] {
            let h = HighlightKind::Linedef(LinedefId(c.4));
            add_unique(out, h);
            proof {
                assert forall|y: HighlightKind|
                    #![trigger out@.contains(y)]
                    out@.contains(y) <==> (start.contains(y) || exists|j: int|
                        0 <= j < i + 1 && ends_inside(cs@[j], min, max) && y == #[trigger] line_kind_at(cs@, j)) by {
                    assert(out@.to_set().contains(y) == before.to_set().insert(h).contains(y));
                    assert(before.contains(y) <==> (start.contains(y) || exists|j: int|
                        0 <= j < i && ends_inside(cs@[j], min, max) && y == #[trigger] line_kind_at(cs@, j)));
                    if y == h {
                        assert(y == line_kind_at(cs@, i as int));
                    }
                    if exists|j: int| 0 <= j < i + 1 && ends_inside(cs@[j], min, max) && y == #[trigger] line_kind_at(cs@, j) {
                        let j = choose|j: int| 0 <= j < i + 1 && ends_inside(cs@[j], min, max) && y == #[trigger] line_kind_at(cs@, j);
                        if j < i {
                            assert(exists|j2: int| 0 <= j2 < i && ends_inside(cs@[j2], min, max) && y == #[trigger] line_kind_at(cs@, j2));
                        }
                    }
                }
            }
        } else {
            proof {
                assert forall|y: HighlightKind|
                    #![trigger out@.contains(y)]
                    out@.contains(y) <==> (start.contains(y) || exists|j: int|
                        0 <= j < i + 1 && ends_inside(cs@[j], min, max) && y == #[trigger] line_kind_at(cs@, j)) by {
                    if exists|j: int| 0 <= j < i + 1 && ends_inside(cs@[j], min, max) && y == #[trigger] line_kind_at(cs@, j) {
                        let j = choose|j: int| 0 <= j < i + 1 && ends_inside(cs@[j], min, max) && y == #[trigger] line_kind_at(cs@, j);
                        assert(j < i);
                        assert(exists|j2: int| 0 <= j2 < i && ends_inside(cs@[j2], min, max) && y == #[trigger] line_kind_at(cs@, j2));
                    }
                }
            }
        }
        i = i + 1;
    }
    proof {
        let hits = rect_line_hits(m, min, max);
        assert forall|y: HighlightKind| out@.to_set().contains(y) <==> start.to_set().union(hits).contains(y) by {
            if hits.contains(y) {
                let e = choose|e: (i64, i64, i64, i64, usize)|
                    #[trigger] m.contains(e) && ends_inside(e, min, max) && y == HighlightKind::Linedef(LinedefId(e.4));
                assert(f(e));
                assert(m.filter(f).count(e) > 0);
                assert(cs@.to_multiset().count(e) > 0);
                assert(cs@.contains(e));
                let j = choose|j: int| 0 <= j < cs@.len() && cs@[j] == e;
                assert(y == line_kind_at(cs@, j));
            }
            if exists|j: int| 0 <= j < cs@.len() && ends_inside(cs@[j], min, max) && y == #[trigger] line_kind_at(cs@, j) {
                let j = choose|j: int| 0 <= j < cs@.len() && ends_inside(cs@[j], min, max) && y == #[trigger] line_kind_at(cs@, j);
                let e = cs@[j];
                assert(cs@.contains(e));
                assert(cs@.to_multiset().count(e) > 0);
                assert(m.filter(f).count(e) > 0);
                assert(m.contains(e));
                assert(hits.contains(y));
            }
        }
        assert(out@.to_set() =~= start.to_set().union(hits));
    }
}

impl SpatialIndex {
    /// The selection after a rectangle drag from `min` to `max` in edit mode
    /// `mode`: vertices inside the box, linedefs with both ends inside it, or
    /// things inside it (sectors are not picked by rectangle), added to
    /// `base` when `additive` and replacing it otherwise.
    pub fn rect_select(
        &self,
        mode: EditMode,
        min: [i64; 2],
        max: [i64; 2],
        base: &Vec<HighlightKind>,
        additive: bool,
    ) -> (r: Vec<HighlightKind>)
        requires
            base@.no_duplicates(),
        ensures
            r@.no_duplicates(),
            r@.to_set() == rect_selection(base@.to_set(), rect_hits(self, mode, min, max), additive),
    {
        let mut out: Vec<HighlightKind> = if additive {
            base.clone()
        } else {
            Vec::new()
        };
        assert(additive ==> out@ == base@);
        let ghost start = out@.to_set();
        match mode {
            EditMode::Vertices => vertex_hits_into(&self.vertices, min, max, &mut out),
            EditMode::Linedefs => line_hits_into(&self.linedefs, min, max, &mut out),
            EditMode::Things => thing_hits_into(&self.things, min, max, &mut out),
            EditMode::Sectors => {},
        }
        proof {
            let hits = rect_hits(self, mode, min, max);
            if !additive {
                assert(start =~= Set::<HighlightKind>::empty());
                assert(start.union(hits) =~= hits);
            }
            if mode == EditMode::Sectors {
                assert(start.union(hits) =~= start);
            }
        }
        out
    }
}

} // verus!
