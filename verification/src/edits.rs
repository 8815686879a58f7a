//! Edits computed from the selection: snapping vertices to the grid,
//! rotating or flipping the selection about its centroid, a gradient of a
//! sector field, consecutive tags. Each returns the changes to apply; the
//! caller wraps them in undoable commands.

use vstd::prelude::*;

use crate::editor::{clamp_i16, field_value, HighlightKind, SectorFieldChange, SectorIntField};
use crate::map::{LinedefId, MapData, MapLinedef, MapSector, SectorId, ThingId, VertexId};

verus! {

/// Move of one vertex by (dx, dy).
#[derive(Clone, Copy, Debug, PartialEq, Eq, Structural)]
pub struct VertexMove {
    pub id: VertexId,
    pub dx: i32,
    pub dy: i32,
}

/// Move of one thing by (dx, dy).
#[derive(Clone, Copy, Debug, PartialEq, Eq, Structural)]
pub struct ThingMove {
    pub id: ThingId,
    pub dx: i32,
    pub dy: i32,
}

/// How "Edit Selection" reshapes the selection about its centroid.
#[derive(Clone, Copy, Debug, PartialEq, Eq, Structural)]
pub enum SelectionTransform {
    /// A quarter turn counter-clockwise (y up).
    Rotate90,
    /// Mirror left to right.
    FlipH,
    /// Mirror top to bottom.
    FlipV,
}

// ---------------------------------------------------------------------------
// What a selection touches.

pub open spec fn add_unique<T>(s: Seq<T>, v: T) -> Seq<T> {
    if s.contains(v) {
        s
    } else {
        s.push(v)
    }
}

/// Vertices a selection moves: selected vertices and both ends of
/// selected linedefs that exist, in order of first mention, each once.
pub open spec fn touched_vertices(map: &MapData, sel: Seq<HighlightKind>) -> Seq<VertexId>
    decreases sel.len(),
{
    if sel.len() == 0 {
        Seq::empty()
    } else {
        let prev = touched_vertices(map, sel.drop_last());
        match sel.last() {
            HighlightKind::Vertex(v) => add_unique(prev, v),
            HighlightKind::Linedef(l) => match map.linedef_at(l) {
                Some(line) => add_unique(add_unique(prev, line.v1), line.v2),
                None => prev,
            },
            _ => prev,
        }
    }
}

/// Things a selection moves, in order of first mention, each once.
pub open spec fn touched_things(sel: Seq<HighlightKind>) -> Seq<ThingId>
    decreases sel.len(),
{
    if sel.len() == 0 {
        Seq::empty()
    } else {
        let prev = touched_things(sel.drop_last());
        match sel.last() {
            HighlightKind::Thing(t) => add_unique(prev, t),
            _ => prev,
        }
    }
}

proof fn lemma_add_unique<T>(s: Seq<T>, v: T)
    requires
        s.no_duplicates(),
    ensures
        add_unique(s, v).no_duplicates(),
        forall|w: T| #[trigger] add_unique(s, v).contains(w) <==> (s.contains(w) || w == v),
{
    if !s.contains(v) {
        let s1 = s.push(v);
        assert forall|a: int, b: int| 0 <= a < s1.len() && 0 <= b < s1.len() && a != b implies s1[a] != s1[b] by {
            if a == s.len() {
                assert(s1[a] == v);
                if b < s.len() {
                    assert(s1[b] == s[b]);
                }
            } else if b == s.len() {
                assert(s1[a] == s[a]);
            } else {
                assert(s1[a] == s[a] && s1[b] == s[b]);
            }
        }
        assert forall|w: T| s1.contains(w) <==> (s.contains(w) || w == v) by {
            if s1.contains(w) {
                let j = choose|j: int| 0 <= j < s1.len() && s1[j] == w;
                if j < s.len() {
                    assert(s[j] == w);
                }
            }
            if s.contains(w) {
                let j = choose|j: int| 0 <= j < s.len() && s[j] == w;
                assert(s1[j] == w);
            }
            if w == v {
                assert(s1[s.len() as int] == w);
            }
        }
    }
}

/// A selection touches exactly its selected vertices and both ends of its
/// selected linedefs that exist, each once; and exactly its selected
/// things, each once.
pub proof fn lemma_touched(map: &MapData, sel: Seq<HighlightKind>)
    ensures
        touched_vertices(map, sel).no_duplicates(),
        forall|v: VertexId|
            #[trigger] touched_vertices(map, sel).contains(v) <==> (sel.contains(HighlightKind::Vertex(v)) || exists|l: LinedefId|
                #[trigger] sel.contains(HighlightKind::Linedef(l)) && map.linedef_at(l) is Some && (map.linedef_at(l)->0.v1 == v
                    || map.linedef_at(l)->0.v2 == v)),
        touched_things(sel).no_duplicates(),
        forall|t: ThingId| #[trigger] touched_things(sel).contains(t) <==> sel.contains(HighlightKind::Thing(t)),
    decreases sel.len(),
{
    if sel.len() > 0 {
        let p = sel.drop_last();
        let x = sel.last();
        lemma_touched(map, p);
        assert(sel =~= p.push(x));
        assert forall|h: HighlightKind| sel.contains(h) <==> (p.contains(h) || h == x) by {
            if sel.contains(h) {
                let j = choose|j: int| 0 <= j < sel.len() && sel[j] == h;
                if j < p.len() {
                    assert(p[j] == h);
                }
            }
            if p.contains(h) {
                let j = choose|j: int| 0 <= j < p.len() && p[j] == h;
                assert(sel[j] == h);
            }
            if h == x {
                assert(sel[sel.len() - 1] == h);
            }
        }
        let tp = touched_vertices(map, p);
        match x {
            HighlightKind::Vertex(w) => lemma_add_unique(tp, w),
            HighlightKind::Linedef(l) => {
                if let Some(line) = map.linedef_at(l) {
                    lemma_add_unique(tp, line.v1);
                    lemma_add_unique(add_unique(tp, line.v1), line.v2);
                }
            },
            HighlightKind::Thing(t) => lemma_add_unique(touched_things(p), t),
            _ => {},
        }
        assert forall|v: VertexId|
            #[trigger] touched_vertices(map, sel).contains(v) <==> (sel.contains(HighlightKind::Vertex(v)) || exists|l: LinedefId|
                #[trigger] sel.contains(HighlightKind::Linedef(l)) && map.linedef_at(l) is Some && (map.linedef_at(l)->0.v1 == v
                    || map.linedef_at(l)->0.v2 == v)) by {
            let tv = touched_vertices(map, sel);
            assert(sel.contains(HighlightKind::Vertex(v)) <==> (p.contains(HighlightKind::Vertex(v)) || HighlightKind::Vertex(v)
                == x));
            match x {
                HighlightKind::Vertex(w) => {
                    assert(tv == add_unique(tp, w));
                    assert(add_unique(tp, w).contains(v) <==> (tp.contains(v) || v == w));
                },
                HighlightKind::Linedef(l) => {
                    match map.linedef_at(l) {
                        Some(line) => {
                            assert(tv == add_unique(add_unique(tp, line.v1), line.v2));
                            assert(add_unique(tp, line.v1).contains(v) <==> (tp.contains(v) || v == line.v1));
                            assert(add_unique(add_unique(tp, line.v1), line.v2).contains(v) <==> (add_unique(tp, line.v1).contains(v)
                                || v == line.v2));
                            assert(sel.contains(HighlightKind::Linedef(l)));
                        },
                        None => {
                            assert(tv == tp);
                        },
                    }
                },
                _ => {
                    assert(tv == tp);
                },
            }
            if exists|l: LinedefId|
                #[trigger] p.contains(HighlightKind::Linedef(l)) && map.linedef_at(l) is Some && (map.linedef_at(l)->0.v1 == v
                    || map.linedef_at(l)->0.v2 == v) {
                let l = choose|l: LinedefId|
                    #[trigger] p.contains(HighlightKind::Linedef(l)) && map.linedef_at(l) is Some && (map.linedef_at(l)->0.v1 == v
                        || map.linedef_at(l)->0.v2 == v);
                assert(sel.contains(HighlightKind::Linedef(l)));
            }
            if exists|l: LinedefId|
                #[trigger] sel.contains(HighlightKind::Linedef(l)) && map.linedef_at(l) is Some && (map.linedef_at(l)->0.v1 == v
                    || map.linedef_at(l)->0.v2 == v) {
                let l = choose|l: LinedefId|
                    #[trigger] sel.contains(HighlightKind::Linedef(l)) && map.linedef_at(l) is Some && (map.linedef_at(l)->0.v1 == v
                        || map.linedef_at(l)->0.v2 == v);
                if HighlightKind::Linedef(l) != x {
                    assert(p.contains(HighlightKind::Linedef(l)));
                }
            }
        }
    }
}

fn push_unique_vertex(out: &mut Vec<VertexId>, v: VertexId)
    ensures
        final(out)@ == add_unique(old(out)@, v),
{
    let mut i: usize = 0;
    while i < out.len()
        invariant
            0 <= i <= out@.len(),
            out@ == old(out)@,
            forall|j: int| 0 <= j < i ==> out@[j] != v,
        decreases out@.len() - i,
    {
        if out[i] == v {
            assert(out@.contains(v));
            return;
        }
        i = i + 1;
    }
    out.push(v);
}

fn push_unique_thing(out: &mut Vec<ThingId>, t: ThingId)
    ensures
        final(out)@ == add_unique(old(out)@, t),
{
    let mut i: usize = 0;
    while i < out.len()
        invariant
            0 <= i <= out@.len(),
            out@ == old(out)@,
            forall|j: int| 0 <= j < i ==> out@[j] != t,
        decreases out@.len() - i,
    {
        if out[i] == t {
            assert(out@.contains(t));
            return;
        }
        i = i + 1;
    }
    out.push(t);
}

fn selection_vertices(map: &MapData, sel: &Vec<HighlightKind>) -> (r: Vec<VertexId>)
    ensures
        r@ == touched_vertices(map, sel@),
{
    let mut out: Vec<VertexId> = Vec::new();
    let mut i: usize = 0;
    while i < sel.len()
        invariant
            0 <= i <= sel@.len(),
            out@ == touched_vertices(map, sel@.subrange(0, i as int)),
        decreases sel@.len() - i,
    {
        assert(sel@.subrange(0, i + 1).drop_last() =~= sel@.subrange(0, i as int));
        match sel[i] {
            HighlightKind::Vertex(v) => push_unique_vertex(&mut out, v),
            HighlightKind::Linedef(l) => {
                if let Some(line) = map.linedef(l) {
                    push_unique_vertex(&mut out, line.v1);
                    push_unique_vertex(&mut out, line.v2);
                }
            },
            _ => {},
        }
        i = i + 1;
    }
    assert(sel@.subrange(0, sel@.len() as int) =~= sel@);
    out
}

fn selection_things(sel: &Vec<HighlightKind>) -> (r: Vec<ThingId>)
    ensures
        r@ == touched_things(sel@),
{
    let mut out: Vec<ThingId> = Vec::new();
    let mut i: usize = 0;
    while i < sel.len()
        invariant
            0 <= i <= sel@.len(),
            out@ == touched_things(sel@.subrange(0, i as int)),
        decreases sel@.len() - i,
    {
        assert(sel@.subrange(0, i + 1).drop_last() =~= sel@.subrange(0, i as int));
        match sel[i] {
            HighlightKind::Thing(t) => push_unique_thing(&mut out, t),
            _ => {},
        }
        i = i + 1;
    }
    assert(sel@.subrange(0, sel@.len() as int) =~= sel@);
    out
}

// ---------------------------------------------------------------------------
// Rounding.

/// `v / d` rounded to the nearest integer, halves away from zero.
pub open spec fn round_div(v: int, d: int) -> int {
    if v >= 0 {
        (2 * v + d) / (2 * d)
    } else {
        -((-2 * v + d) / (2 * d))
    }
}

/// `round_div` stays within one of `v` in size.
proof fn lemma_round_div_bound(v: int, d: int)
    requires
        d >= 1,
    ensures
        v >= 0 ==> 0 <= round_div(v, d) <= v + 1,
        v < 0 ==> v - 1 <= round_div(v, d) <= 0,
{
    let a = if v >= 0 { v } else { -v };
    let x = 2 * a + d;
    let q = x / (2 * d);
    vstd::arithmetic::div_mod::lemma_fundamental_div_mod(x, 2 * d);
    vstd::arithmetic::div_mod::lemma_mod_bound(x, 2 * d);
    assert(0 <= q <= a + 1) by (nonlinear_arith)
        requires
            d >= 1,
            a >= 0,
            x == 2 * a + d,
            x == (2 * d) * q + x % (2 * d),
            0 <= x % (2 * d) < 2 * d,
    ;
}

fn round_div_exec(v: i128, d: i128) -> (r: i128)
    requires
        1 <= d <= 0x100_0000_0000_0000_0000,
        -0x100_0000_0000_0000_0000_0000_0000_0000 <= v <= 0x100_0000_0000_0000_0000_0000_0000_0000,
    ensures
        r == round_div(v as int, d as int),
{
    proof {
        lemma_round_div_bound(v as int, d as int);
    }
    if v >= 0 {
        let x: i128 = 2 * v + d;
        x / (2 * d)
    } else {
        let x: i128 = d - 2 * v;
        let q: i128 = x / (2 * d);
        -q
    }
}

// ---------------------------------------------------------------------------
// Snap to grid.

/// `v` moved to the nearest multiple of `step`, halves away from zero.
pub open spec fn snap_coord(v: int, step: int) -> int {
    round_div(v, step) * step
}

/// Moves that snap the given vertices (those that exist) to the grid,
/// leaving out the ones already on it.
pub open spec fn snap_spec(map: &MapData, ids: Seq<VertexId>, step: int) -> Seq<VertexMove>
    decreases ids.len(),
{
    if ids.len() == 0 {
        Seq::empty()
    } else {
        let prev = snap_spec(map, ids.drop_last(), step);
        let id = ids.last();
        match map.vertex_at(id) {
            Some(v) => {
                let dx = snap_coord(v.x as int, step) - v.x;
                let dy = snap_coord(v.y as int, step) - v.y;
                if dx != 0 || dy != 0 {
                    prev.push(VertexMove { id, dx: dx as i32, dy: dy as i32 })
                } else {
                    prev
                }
            },
            None => prev,
        }
    }
}

/// Snap the vertices the selection touches to a grid of `step` map units
/// (at least one).
pub fn snap_moves(map: &MapData, sel: &Vec<HighlightKind>, step: u32) -> (r: Vec<VertexMove>)
    ensures
        r@ == snap_spec(map, touched_vertices(map, sel@), if step == 0 { 1 } else { step as int }),
{
    let s: i128 = if step == 0 { 1 } else { step as i128 };
    let ids = selection_vertices(map, sel);
    let mut out: Vec<VertexMove> = Vec::new();
    let mut i: usize = 0;
    while i < ids.len()
        invariant
            0 <= i <= ids@.len(),
            1 <= s <= 4294967295,
            s == if step == 0 { 1 } else { step as int },
            out@ == snap_spec(map, ids@.subrange(0, i as int), s as int),
        decreases ids@.len() - i,
    {
        assert(ids@.subrange(0, i + 1).drop_last() =~= ids@.subrange(0, i as int));
        let id = ids[i];
        if let Some(v) = map.vertex(id) {
            proof {
                lemma_round_div_bound(v.x as int, s as int);
                lemma_round_div_bound(v.y as int, s as int);
            }
            let qx = round_div_exec(v.x as i128, s);
            let qy = round_div_exec(v.y as i128, s);
            proof {
                assert(-4294967296 * 4294967295 <= qx * s <= 4294967296 * 4294967295) by (nonlinear_arith)
                    requires
                        -2147483649 <= qx <= 2147483648,
                        1 <= s <= 4294967295,
                ;
                assert(-4294967296 * 4294967295 <= qy * s <= 4294967296 * 4294967295) by (nonlinear_arith)
                    requires
                        -2147483649 <= qy <= 2147483648,
                        1 <= s <= 4294967295,
                ;
            }
            let sx = qx * s;
            let sy = qy * s;
            let dx = sx - v.x as i128;
            let dy = sy - v.y as i128;
            if dx != 0 || dy != 0 {
                out.push(VertexMove { id, dx: dx as i32, dy: dy as i32 });
            }
        }
        i = i + 1;
    }
    assert(ids@.subrange(0, ids@.len() as int) =~= ids@);
    out
}


// ---------------------------------------------------------------------------
// Rotate and flip.

/// Sums of x and y, and the count, of the given vertices that exist.
pub open spec fn vertex_sums(map: &MapData, ids: Seq<VertexId>) -> (int, int, int)
    decreases ids.len(),
{
    if ids.len() == 0 {
        (0, 0, 0)
    } else {
        let (sx, sy, n) = vertex_sums(map, ids.drop_last());
        match map.vertex_at(ids.last()) {
            Some(v) => (sx + v.x, sy + v.y, n + 1),
            None => (sx, sy, n),
        }
    }
}

/// Sums of x and y, and the count, of the given things that exist.
pub open spec fn thing_sums(map: &MapData, ids: Seq<ThingId>) -> (int, int, int)
    decreases ids.len(),
{
    if ids.len() == 0 {
        (0, 0, 0)
    } else {
        let (sx, sy, n) = thing_sums(map, ids.drop_last());
        match map.thing_at(ids.last()) {
            Some(t) => (sx + t.x, sy + t.y, n + 1),
            None => (sx, sy, n),
        }
    }
}

/// Where (x, y) goes under `kind` about the centroid (sx / n, sy / n),
/// rounded to whole map units, halves away from zero.
pub open spec fn transformed(kind: SelectionTransform, sx: int, sy: int, n: int, x: int, y: int) -> (int, int) {
    match kind {
        SelectionTransform::Rotate90 => (round_div(sx + sy - n * y, n), round_div(sy - sx + n * x, n)),
        SelectionTransform::FlipH => (round_div(2 * sx - n * x, n), y),
        SelectionTransform::FlipV => (x, round_div(2 * sy - n * y, n)),
    }
}

pub open spec fn vertex_moves_spec(
    map: &MapData,
    ids: Seq<VertexId>,
    kind: SelectionTransform,
    sx: int,
    sy: int,
    n: int,
) -> Seq<VertexMove>
    decreases ids.len(),
{
    if ids.len() == 0 {
        Seq::empty()
    } else {
        let prev = vertex_moves_spec(map, ids.drop_last(), kind, sx, sy, n);
        let id = ids.last();
        match map.vertex_at(id) {
            Some(v) => {
                let (nx, ny) = transformed(kind, sx, sy, n, v.x as int, v.y as int);
                if nx != v.x || ny != v.y {
                    prev.push(VertexMove { id, dx: (nx - v.x) as i32, dy: (ny - v.y) as i32 })
                } else {
                    prev
                }
            },
            None => prev,
        }
    }
}

pub open spec fn thing_moves_spec(
    map: &MapData,
    ids: Seq<ThingId>,
    kind: SelectionTransform,
    sx: int,
    sy: int,
    n: int,
) -> Seq<ThingMove>
    decreases ids.len(),
{
    if ids.len() == 0 {
        Seq::empty()
    } else {
        let prev = thing_moves_spec(map, ids.drop_last(), kind, sx, sy, n);
        let id = ids.last();
        match map.thing_at(id) {
            Some(t) => {
                let (nx, ny) = transformed(kind, sx, sy, n, t.x as int, t.y as int);
                if nx != t.x || ny != t.y {
                    prev.push(ThingMove { id, dx: (nx - t.x) as i32, dy: (ny - t.y) as i32 })
                } else {
                    prev
                }
            },
            None => prev,
        }
    }
}

/// Bound on coordinate sums: 2^31 per element.
pub open spec fn sums_bounded(s: (int, int, int), len: int) -> bool {
    &&& 0 <= s.2 <= len
    &&& -2147483648 * len <= s.0 <= 2147483648 * len
    &&& -2147483648 * len <= s.1 <= 2147483648 * len
}

fn sum_vertices(map: &MapData, ids: &Vec<VertexId>) -> (r: (i128, i128, i128))
    ensures
        (r.0 as int, r.1 as int, r.2 as int) == vertex_sums(map, ids@),
        sums_bounded((r.0 as int, r.1 as int, r.2 as int), ids@.len() as int),
{
    let mut sx: i128 = 0;
    let mut sy: i128 = 0;
    let mut n: i128 = 0;
    let mut i: usize = 0;
    while i < ids.len()
        invariant
            0 <= i <= ids@.len(),
            (sx as int, sy as int, n as int) == vertex_sums(map, ids@.subrange(0, i as int)),
            sums_bounded((sx as int, sy as int, n as int), i as int),
        decreases ids@.len() - i,
    {
        assert(ids@.subrange(0, i + 1).drop_last() =~= ids@.subrange(0, i as int));
        if let Some(v) = map.vertex(ids[i]) {
            sx = sx + v.x as i128;
            sy = sy + v.y as i128;
            n = n + 1;
        }
        i = i + 1;
    }
    assert(ids@.subrange(0, ids@.len() as int) =~= ids@);
    (sx, sy, n)
}

fn sum_things(map: &MapData, ids: &Vec<ThingId>) -> (r: (i128, i128, i128))
    ensures
        (r.0 as int, r.1 as int, r.2 as int) == thing_sums(map, ids@),
        sums_bounded((r.0 as int, r.1 as int, r.2 as int), ids@.len() as int),
{
    let mut sx: i128 = 0;
    let mut sy: i128 = 0;
    let mut n: i128 = 0;
    let mut i: usize = 0;
    while i < ids.len()
        invariant
            0 <= i <= ids@.len(),
            (sx as int, sy as int, n as int) == thing_sums(map, ids@.subrange(0, i as int)),
            sums_bounded((sx as int, sy as int, n as int), i as int),
        decreases ids@.len() - i,
    {
        assert(ids@.subrange(0, i + 1).drop_last() =~= ids@.subrange(0, i as int));
        if let Some(t) = map.thing(ids[i]) {
            sx = sx + t.x as i128;
            sy = sy + t.y as i128;
            n = n + 1;
        }
        i = i + 1;
    }
    assert(ids@.subrange(0, ids@.len() as int) =~= ids@);
    (sx, sy, n)
}

/// The centre limits within which `transform_point` works: sums of at most
/// 2^65 coordinates.
pub open spec fn centre_ok(sx: int, sy: int, n: int) -> bool {
    &&& 1 <= n <= 0x4_0000_0000_0000_0000
    &&& -0x2_0000_0000_0000_0000_0000_0000 <= sx <= 0x2_0000_0000_0000_0000_0000_0000
    &&& -0x2_0000_0000_0000_0000_0000_0000 <= sy <= 0x2_0000_0000_0000_0000_0000_0000
}

fn transform_point(kind: SelectionTransform, sx: i128, sy: i128, n: i128, x: i32, y: i32) -> (r: (i128, i128))
    requires
        centre_ok(sx as int, sy as int, n as int),
    ensures
        (r.0 as int, r.1 as int) == transformed(kind, sx as int, sy as int, n as int, x as int, y as int),
        -0x10_0000_0000_0000_0000_0000_0000 <= r.0 <= 0x10_0000_0000_0000_0000_0000_0000,
        -0x10_0000_0000_0000_0000_0000_0000 <= r.1 <= 0x10_0000_0000_0000_0000_0000_0000,
{
    proof {
        assert(-0x2_0000_0000_0000_0000_0000_0000 <= n * (x as int) <= 0x2_0000_0000_0000_0000_0000_0000) by (nonlinear_arith)
            requires
                1 <= n <= 0x4_0000_0000_0000_0000,
                -2147483648 <= x <= 2147483647,
        ;
        assert(-0x2_0000_0000_0000_0000_0000_0000 <= n * (y as int) <= 0x2_0000_0000_0000_0000_0000_0000) by (nonlinear_arith)
            requires
                1 <= n <= 0x4_0000_0000_0000_0000,
                -2147483648 <= y <= 2147483647,
        ;
    }
    let nx = n * x as i128;
    let ny = n * y as i128;
    proof {
        lemma_round_div_bound(sx + sy - ny, n as int);
        lemma_round_div_bound(sy - sx + nx, n as int);
        lemma_round_div_bound(2 * sx - nx, n as int);
        lemma_round_div_bound(2 * sy - ny, n as int);
    }
    match kind {
        SelectionTransform::Rotate90 => (round_div_exec(sx + sy - ny, n), round_div_exec(sy - sx + nx, n)),
        SelectionTransform::FlipH => (round_div_exec(2 * sx - nx, n), y as i128),
        SelectionTransform::FlipV => (x as i128, round_div_exec(2 * sy - ny, n)),
    }
}

/// Rotate or flip the vertices and things the selection touches about
/// their centroid. `None` when the selection touches neither; no moves
/// when none of them exists or none moves.
pub fn transform_moves(map: &MapData, sel: &Vec<HighlightKind>, kind: SelectionTransform) -> (r: Option<(Vec<VertexMove>, Vec<ThingMove>)>)
    ensures
        r is None <==> touched_vertices(map, sel@).len() == 0 && touched_things(sel@).len() == 0,
        r matches Some(m) ==> {
            let vids = touched_vertices(map, sel@);
            let tids = touched_things(sel@);
            let vs = vertex_sums(map, vids);
            let ts = thing_sums(map, tids);
            let n = vs.2 + ts.2;
            &&& n == 0 ==> m.0@.len() == 0 && m.1@.len() == 0
            &&& n > 0 ==> m.0@ == vertex_moves_spec(map, vids, kind, vs.0 + ts.0, vs.1 + ts.1, n)
            &&& n > 0 ==> m.1@ == thing_moves_spec(map, tids, kind, vs.0 + ts.0, vs.1 + ts.1, n)
        },
{
    let vids = selection_vertices(map, sel);
    let tids = selection_things(sel);
    if vids.len() == 0 && tids.len() == 0 {
        return None;
    }
    let (vx, vy, vn) = sum_vertices(map, &vids);
    let (tx, ty, tn) = sum_things(map, &tids);
    let vlen = vids.len();
    let tlen = tids.len();
    proof {
        let lv = vlen as int;
        let lt = tlen as int;
        assert(vn <= lv && tn <= lt);
        assert(-0x1_0000_0000_0000_0000_0000_0000 <= vx + tx <= 0x1_0000_0000_0000_0000_0000_0000
            && -0x1_0000_0000_0000_0000_0000_0000 <= vy + ty <= 0x1_0000_0000_0000_0000_0000_0000) by (nonlinear_arith)
            requires
                sums_bounded((vx as int, vy as int, vn as int), lv),
                sums_bounded((tx as int, ty as int, tn as int), lt),
                0 <= lv <= 0xFFFF_FFFF_FFFF_FFFF,
                0 <= lt <= 0xFFFF_FFFF_FFFF_FFFF,
        ;
        assert(vn + tn <= 0x2_0000_0000_0000_0000);
    }
    let n = vn + tn;
    if n == 0 {
        return Some((Vec::new(), Vec::new()));
    }
    let sx = vx + tx;
    let sy = vy + ty;
    assert(centre_ok(sx as int, sy as int, n as int));
    let mut vm: Vec<VertexMove> = Vec::new();
    let mut i: usize = 0;
    while i < vids.len()
        invariant
            0 <= i <= vids@.len(),
            centre_ok(sx as int, sy as int, n as int),
            vm@ == vertex_moves_spec(map, vids@.subrange(0, i as int), kind, sx as int, sy as int, n as int),
        decreases vids@.len() - i,
    {
        assert(vids@.subrange(0, i + 1).drop_last() =~= vids@.subrange(0, i as int));
        let id = vids[i];
        if let Some(v) = map.vertex(id) {
            let (nx, ny) = transform_point(kind, sx, sy, n, v.x, v.y);
            if nx != v.x as i128 || ny != v.y as i128 {
                vm.push(VertexMove { id, dx: (nx - v.x as i128) as i32, dy: (ny - v.y as i128) as i32 });
            }
        }
        i = i + 1;
    }
    assert(vids@.subrange(0, vids@.len() as int) =~= vids@);
    let mut tm: Vec<ThingMove> = Vec::new();
    let mut j: usize = 0;
    while j < tids.len()
        invariant
            0 <= j <= tids@.len(),
            centre_ok(sx as int, sy as int, n as int),
            tm@ == thing_moves_spec(map, tids@.subrange(0, j as int), kind, sx as int, sy as int, n as int),
        decreases tids@.len() - j,
    {
        assert(tids@.subrange(0, j + 1).drop_last() =~= tids@.subrange(0, j as int));
        let id = tids[j];
        if let Some(t) = map.thing(id) {
            let (nx, ny) = transform_point(kind, sx, sy, n, t.x, t.y);
            if nx != t.x as i128 || ny != t.y as i128 {
                tm.push(ThingMove { id, dx: (nx - t.x as i128) as i32, dy: (ny - t.y as i128) as i32 });
            }
        }
        j = j + 1;
    }
    assert(tids@.subrange(0, tids@.len() as int) =~= tids@);
    Some((vm, tm))
}


// ---------------------------------------------------------------------------
// Sector field gradient and tag ranges.

/// The field a gradient reads; fields other than heights and light read 0.
pub open spec fn gradient_value(sec: MapSector, field: SectorIntField) -> int {
    match field {
        SectorIntField::FloorHeight => sec.floor_height as int,
        SectorIntField::CeilingHeight => sec.ceiling_height as int,
        SectorIntField::Light => sec.light as int,
        _ => 0,
    }
}

/// Value at position `i` of `n` on the line from `first` to `last`,
/// rounded, halves away from zero.
pub open spec fn gradient_target(first: int, last: int, i: int, n: int) -> int {
    round_div(first * (n - 1) + (last - first) * i, n - 1)
}

pub open spec fn gradient_upto(
    map: &MapData,
    ids: Seq<SectorId>,
    field: SectorIntField,
    first: int,
    last: int,
    k: int,
) -> Seq<SectorFieldChange>
    decreases k,
{
    if k <= 0 {
        Seq::empty()
    } else {
        let prev = gradient_upto(map, ids, field, first, last, k - 1);
        let id = ids[k - 1];
        match map.sector_at(id) {
            Some(sec) => {
                let t = gradient_target(first, last, k - 1, ids.len() as int);
                let old = gradient_value(sec, field);
                if t != old {
                    prev.push(SectorFieldChange { id, field, old: old as i32, new: clamp_i16(t) as i32 })
                } else {
                    prev
                }
            },
            None => prev,
        }
    }
}

/// Changes that spread `field` evenly, by position in `ids`, from the first
/// sector's value to the last's. `None` for fewer than two sectors or when
/// the first or last is gone.
pub open spec fn gradient_spec(map: &MapData, ids: Seq<SectorId>, field: SectorIntField) -> Option<Seq<SectorFieldChange>> {
    if ids.len() < 2 {
        None
    } else {
        match (map.sector_at(ids[0]), map.sector_at(ids.last())) {
            (Some(f), Some(l)) => Some(
                gradient_upto(map, ids, field, gradient_value(f, field), gradient_value(l, field), ids.len() as int),
            ),
            _ => None,
        }
    }
}

fn gradient_read(sec: &MapSector, field: SectorIntField) -> (r: i128)
    ensures
        r == gradient_value(*sec, field),
        -32768 <= r <= 32767,
{
    match field {
        SectorIntField::FloorHeight => sec.floor_height as i128,
        SectorIntField::CeilingHeight => sec.ceiling_height as i128,
        SectorIntField::Light => sec.light as i128,
        _ => 0,
    }
}

/// The change that gives the sector at position `i` of `ids` its gradient
/// value between `first` and `last`.
pub open spec fn gradient_at(
    map: &MapData,
    ids: Seq<SectorId>,
    field: SectorIntField,
    first: int,
    last: int,
    i: int,
) -> SectorFieldChange {
    SectorFieldChange {
        id: ids[i],
        field,
        old: gradient_value(map.sector_at(ids[i])->0, field) as i32,
        new: clamp_i16(gradient_target(first, last, i, ids.len() as int)) as i32,
    }
}

proof fn lemma_gradient_changes(map: &MapData, ids: Seq<SectorId>, field: SectorIntField, first: int, last: int, k: int)
    requires
        0 <= k <= ids.len(),
    ensures
        forall|i: int|
            0 <= i < k && map.sector_at(ids[i]) is Some && gradient_target(first, last, i, ids.len() as int) != gradient_value(
                map.sector_at(ids[i])->0,
                field,
            ) ==> gradient_upto(map, ids, field, first, last, k).contains(#[trigger] gradient_at(map, ids, field, first, last, i)),
        forall|j: int|
            #![trigger gradient_upto(map, ids, field, first, last, k)[j]]
            0 <= j < gradient_upto(map, ids, field, first, last, k).len() ==> exists|i: int|
                0 <= i < k && map.sector_at(ids[i]) is Some && gradient_target(first, last, i, ids.len() as int)
                    != gradient_value(map.sector_at(ids[i])->0, field) && gradient_upto(map, ids, field, first, last, k)[j]
                    == #[trigger] gradient_at(map, ids, field, first, last, i),
    decreases k,
{
    if k > 0 {
        lemma_gradient_changes(map, ids, field, first, last, k - 1);
        let prev = gradient_upto(map, ids, field, first, last, k - 1);
        let cur = gradient_upto(map, ids, field, first, last, k);
        assert forall|j: int| 0 <= j < prev.len() implies cur[j] == prev[j] by {}
        assert forall|i: int|
            0 <= i < k && map.sector_at(ids[i]) is Some && gradient_target(first, last, i, ids.len() as int) != gradient_value(
                map.sector_at(ids[i])->0,
                field,
            ) implies cur.contains(#[trigger] gradient_at(map, ids, field, first, last, i)) by {
            let c = gradient_at(map, ids, field, first, last, i);
            if i < k - 1 {
                assert(prev.contains(c));
                let j = choose|j: int| 0 <= j < prev.len() && prev[j] == c;
                assert(cur[j] == c);
            } else {
                assert(cur[cur.len() - 1] == c);
            }
        }
        assert forall|j: int|
            #![trigger cur[j]]
            0 <= j < cur.len() implies exists|i: int|
                0 <= i < k && map.sector_at(ids[i]) is Some && gradient_target(first, last, i, ids.len() as int)
                    != gradient_value(map.sector_at(ids[i])->0, field) && cur[j] == #[trigger] gradient_at(
                    map,
                    ids,
                    field,
                    first,
                    last,
                    i,
                ) by {
            if j < prev.len() {
                let i = choose|i: int|
                    0 <= i < k - 1 && map.sector_at(ids[i]) is Some && gradient_target(first, last, i, ids.len() as int)
                        != gradient_value(map.sector_at(ids[i])->0, field) && prev[j] == #[trigger] gradient_at(
                        map,
                        ids,
                        field,
                        first,
                        last,
                        i,
                    );
                assert(cur[j] == gradient_at(map, ids, field, first, last, i));
            } else {
                assert(cur[j] == gradient_at(map, ids, field, first, last, k - 1));
            }
        }
    }
}

/// The sector field changes of a gradient across `sectors`: each existing
/// sector at position `i` whose value differs from its target gets the
/// target, interpolated between the first and the last sector's values
/// (see `lemma_gradient_nearest`) and held to the range of `i16`; nothing
/// else changes. `None` with fewer than two sectors or when the first or
/// last is missing.
pub fn gradient_changes(map: &MapData, sectors: &Vec<SectorId>, field: SectorIntField) -> (r: Option<Vec<SectorFieldChange>>)
    ensures
        match r {
            Some(v) => gradient_spec(map, sectors@, field) == Some(v@),
            None => gradient_spec(map, sectors@, field) is None,
        },
        r is None <==> sectors@.len() < 2 || map.sector_at(sectors@[0]) is None || map.sector_at(sectors@.last()) is None,
        r matches Some(v) ==> forall|i: int|
            0 <= i < sectors@.len() && map.sector_at(sectors@[i]) is Some && gradient_target(
                gradient_value(map.sector_at(sectors@[0])->0, field),
                gradient_value(map.sector_at(sectors@.last())->0, field),
                i,
                sectors@.len() as int,
            ) != gradient_value(map.sector_at(sectors@[i])->0, field) ==> v@.contains(
                #[trigger] gradient_at(
                    map,
                    sectors@,
                    field,
                    gradient_value(map.sector_at(sectors@[0])->0, field),
                    gradient_value(map.sector_at(sectors@.last())->0, field),
                    i,
                ),
            ),
        r matches Some(v) ==> forall|j: int|
            #![trigger v@[j]]
            0 <= j < v@.len() ==> exists|i: int|
                0 <= i < sectors@.len() && map.sector_at(sectors@[i]) is Some && gradient_target(
                    gradient_value(map.sector_at(sectors@[0])->0, field),
                    gradient_value(map.sector_at(sectors@.last())->0, field),
                    i,
                    sectors@.len() as int,
                ) != gradient_value(map.sector_at(sectors@[i])->0, field) && v@[j] == #[trigger] gradient_at(
                    map,
                    sectors@,
                    field,
                    gradient_value(map.sector_at(sectors@[0])->0, field),
                    gradient_value(map.sector_at(sectors@.last())->0, field),
                    i,
                ),
{
    proof {
        if sectors@.len() >= 2 && map.sector_at(sectors@[0]) is Some && map.sector_at(sectors@.last()) is Some {
            lemma_gradient_changes(
                map,
                sectors@,
                field,
                gradient_value(map.sector_at(sectors@[0])->0, field),
                gradient_value(map.sector_at(sectors@.last())->0, field),
                sectors@.len() as int,
            );
        }
    }
    let n = sectors.len();
    if n < 2 {
        return None;
    }
    let first = match map.sector(sectors[0]) {
        Some(s) => gradient_read(s, field),
        None => return None,
    };
    let last = match map.sector(sectors[n - 1]) {
        Some(s) => gradient_read(s, field),
        None => return None,
    };
    let d: i128 = n as i128 - 1;
    let mut out: Vec<SectorFieldChange> = Vec::new();
    let mut i: usize = 0;
    while i < n
        invariant
            n == sectors@.len(),
            n >= 2,
            d == n - 1,
            0 <= i <= n,
            -32768 <= first <= 32767,
            -32768 <= last <= 32767,
            out@ == gradient_upto(map, sectors@, field, first as int, last as int, i as int),
        decreases n - i,
    {
        let id = sectors[i];
        if let Some(sec) = map.sector(id) {
            let ii: i128 = i as i128;
            proof {
                assert(-0x1_0000_0000_0000_0000_0000 <= first * d <= 0x1_0000_0000_0000_0000_0000) by (nonlinear_arith)
                    requires
                        -32768 <= first <= 32767,
                        1 <= d <= 0xFFFF_FFFF_FFFF_FFFF,
                ;
                assert(-0x1_0000_0000_0000_0000_0000 <= (last - first) * ii <= 0x1_0000_0000_0000_0000_0000) by (nonlinear_arith)
                    requires
                        -32768 <= first <= 32767,
                        -32768 <= last <= 32767,
                        0 <= ii <= 0xFFFF_FFFF_FFFF_FFFF,
                ;
            }
            let a = first * d;
            let b = (last - first) * ii;
            let t = round_div_exec(a + b, d);
            let old = gradient_read(sec, field);
            if t != old {
                let clamped: i128 = if t < -32768 {
                    -32768
                } else if t > 32767 {
                    32767
                } else {
                    t
                };
                out.push(SectorFieldChange { id, field, old: old as i32, new: clamped as i32 });
            }
        }
        i = i + 1;
    }
    Some(out)
}

/// Consecutive tags from `start` over `ids`, clamped to 0..=65535, for the
/// sectors that exist and whose tag changes.
pub open spec fn tag_range_upto(map: &MapData, ids: Seq<SectorId>, start: int, k: int) -> Seq<SectorFieldChange>
    decreases k,
{
    if k <= 0 {
        Seq::empty()
    } else {
        let prev = tag_range_upto(map, ids, start, k - 1);
        let id = ids[k - 1];
        match map.sector_at(id) {
            Some(sec) => {
                let t = start + (k - 1);
                let new = if t > 65535 { 65535 } else { t };
                if new != sec.tag as int {
                    prev.push(SectorFieldChange { id, field: SectorIntField::Tag, old: sec.tag as i32, new: new as i32 })
                } else {
                    prev
                }
            },
            None => prev,
        }
    }
}

/// The change that gives the sector at position `i` of `ids` the tag
/// `start + i` (at most 65535).
pub open spec fn tag_at(map: &MapData, ids: Seq<SectorId>, start: int, i: int) -> SectorFieldChange {
    SectorFieldChange {
        id: ids[i],
        field: SectorIntField::Tag,
        old: map.sector_at(ids[i])->0.tag as i32,
        new: (if start + i > 65535 { 65535 } else { start + i }) as i32,
    }
}

proof fn lemma_tag_range(map: &MapData, ids: Seq<SectorId>, start: int, k: int)
    requires
        0 <= start,
        0 <= k <= ids.len(),
    ensures
        forall|i: int|
            0 <= i < k && map.sector_at(ids[i]) is Some && (if start + i > 65535 { 65535 } else { start + i })
                != map.sector_at(ids[i])->0.tag ==> tag_range_upto(map, ids, start, k).contains(#[trigger] tag_at(map, ids, start, i)),
        forall|j: int|
            #![trigger tag_range_upto(map, ids, start, k)[j]]
            0 <= j < tag_range_upto(map, ids, start, k).len() ==> exists|i: int|
                0 <= i < k && map.sector_at(ids[i]) is Some && (if start + i > 65535 { 65535 } else { start + i })
                    != map.sector_at(ids[i])->0.tag && tag_range_upto(map, ids, start, k)[j] == #[trigger] tag_at(
                    map,
                    ids,
                    start,
                    i,
                ),
    decreases k,
{
    if k > 0 {
        lemma_tag_range(map, ids, start, k - 1);
        let prev = tag_range_upto(map, ids, start, k - 1);
        let cur = tag_range_upto(map, ids, start, k);
        assert forall|j: int| 0 <= j < prev.len() implies cur[j] == prev[j] by {}
        assert forall|i: int|
            0 <= i < k && map.sector_at(ids[i]) is Some && (if start + i > 65535 { 65535 } else { start + i })
                != map.sector_at(ids[i])->0.tag implies cur.contains(#[trigger] tag_at(map, ids, start, i)) by {
            let c = tag_at(map, ids, start, i);
            if i < k - 1 {
                assert(prev.contains(c));
                let j = choose|j: int| 0 <= j < prev.len() && prev[j] == c;
                assert(cur[j] == c);
            } else {
                assert(cur[cur.len() - 1] == c);
            }
        }
        assert forall|j: int|
            #![trigger cur[j]]
            0 <= j < cur.len() implies exists|i: int|
            0 <= i < k && map.sector_at(ids[i]) is Some && (if start + i > 65535 { 65535 } else { start + i })
                != map.sector_at(ids[i])->0.tag && cur[j] == #[trigger] tag_at(map, ids, start, i) by {
            if j < prev.len() {
                let i = choose|i: int|
                    0 <= i < k - 1 && map.sector_at(ids[i]) is Some && (if start + i > 65535 { 65535 } else { start + i })
                        != map.sector_at(ids[i])->0.tag && prev[j] == #[trigger] tag_at(map, ids, start, i);
                assert(cur[j] == tag_at(map, ids, start, i));
            } else {
                assert(cur[j] == tag_at(map, ids, start, k - 1));
            }
        }
    }
}

/// Tag changes giving `sectors` consecutive tags from `start`; `None` when
/// `start` is negative. The sector at position `i` gets tag `start + i`
/// (at most 65535), a change only where its tag differs.
pub fn tag_range_changes(map: &MapData, sectors: &Vec<SectorId>, start: i32) -> (r: Option<Vec<SectorFieldChange>>)
    ensures
        r is None <==> start < 0,
        r matches Some(v) ==> v@ == tag_range_upto(map, sectors@, start as int, sectors@.len() as int),
        r matches Some(v) ==> forall|i: int|
            0 <= i < sectors@.len() && map.sector_at(sectors@[i]) is Some && (if start + i > 65535 { 65535 } else { start + i })
                != map.sector_at(sectors@[i])->0.tag ==> v@.contains(#[trigger] tag_at(map, sectors@, start as int, i)),
        r matches Some(v) ==> forall|j: int|
            #![trigger v@[j]]
            0 <= j < v@.len() ==> exists|i: int|
                0 <= i < sectors@.len() && map.sector_at(sectors@[i]) is Some && (if start + i > 65535 { 65535 } else {
                    start + i
                }) != map.sector_at(sectors@[i])->0.tag && v@[j] == #[trigger] tag_at(map, sectors@, start as int, i),
{
    proof {
        if start >= 0 {
            lemma_tag_range(map, sectors@, start as int, sectors@.len() as int);
        }
    }
    if start < 0 {
        return None;
    }
    let mut out: Vec<SectorFieldChange> = Vec::new();
    let mut i: usize = 0;
    while i < sectors.len()
        invariant
            0 <= start,
            0 <= i <= sectors@.len(),
            out@ == tag_range_upto(map, sectors@, start as int, i as int),
        decreases sectors@.len() - i,
    {
        let id = sectors[i];
        if let Some(sec) = map.sector(id) {
            let t: i128 = start as i128 + i as i128;
            let new: i128 = if t > 65535 { 65535 } else { t };
            if new != sec.tag as i128 {
                out.push(SectorFieldChange { id, field: SectorIntField::Tag, old: sec.tag as i32, new: new as i32 });
            }
        }
        i = i + 1;
    }
    Some(out)
}


// ---------------------------------------------------------------------------
// Doors and property paste.

/// A linedef's special changing from `old` to `new`.
#[derive(Clone, Copy, Debug, PartialEq, Eq, Structural)]
pub struct LinedefSpecialChange {
    pub id: LinedefId,
    pub old: u16,
    pub new: u16,
}

/// Closing the door sectors: ceiling down to floor, where they differ.
pub open spec fn door_sectors_upto(map: &MapData, ids: Seq<SectorId>, k: int) -> Seq<SectorFieldChange>
    decreases k,
{
    if k <= 0 {
        Seq::empty()
    } else {
        let prev = door_sectors_upto(map, ids, k - 1);
        let id = ids[k - 1];
        match map.sector_at(id) {
            Some(sec) => if sec.ceiling_height != sec.floor_height {
                prev.push(SectorFieldChange {
                    id,
                    field: SectorIntField::CeilingHeight,
                    old: sec.ceiling_height as i32,
                    new: sec.floor_height as i32,
                })
            } else {
                prev
            },
            None => prev,
        }
    }
}

/// A side of the line faces one of the sectors.
pub open spec fn touches_any(map: &MapData, line: MapLinedef, ids: Seq<SectorId>) -> bool {
    (map.side_sector(line.right) is Some && ids.contains(map.side_sector(line.right)->0)) || (map.side_sector(line.left) is Some
        && ids.contains(map.side_sector(line.left)->0))
}

/// Door action (special 1) for the first `k` linedef slots that border a
/// door sector and have no special yet.
pub open spec fn door_lines_upto(map: &MapData, ids: Seq<SectorId>, k: int) -> Seq<LinedefSpecialChange>
    decreases k,
{
    if k <= 0 {
        Seq::empty()
    } else {
        let prev = door_lines_upto(map, ids, k - 1);
        match map.linedefs@[k - 1] {
            Some(l) => if touches_any(map, l, ids) && l.special == 0 {
                prev.push(LinedefSpecialChange { id: LinedefId((k - 1) as usize), old: 0, new: 1 })
            } else {
                prev
            },
            None => prev,
        }
    }
}

proof fn lemma_door_sectors(map: &MapData, ids: Seq<SectorId>, k: int)
    requires
        0 <= k <= ids.len(),
    ensures
        forall|j: int|
            0 <= j < door_sectors_upto(map, ids, k).len() ==> {
                let c = #[trigger] door_sectors_upto(map, ids, k)[j];
                &&& ids.contains(c.id)
                &&& map.sector_at(c.id) is Some
                &&& c.field == SectorIntField::CeilingHeight
                &&& c.old == map.sector_at(c.id)->0.ceiling_height as i32
                &&& c.new == map.sector_at(c.id)->0.floor_height as i32
                &&& c.old != c.new
            },
        forall|i: int|
            0 <= i < k && map.sector_at(#[trigger] ids[i]) is Some && map.sector_at(ids[i])->0.ceiling_height != map.sector_at(
                ids[i],
            )->0.floor_height ==> door_sectors_upto(map, ids, k).contains(
                SectorFieldChange {
                    id: ids[i],
                    field: SectorIntField::CeilingHeight,
                    old: map.sector_at(ids[i])->0.ceiling_height as i32,
                    new: map.sector_at(ids[i])->0.floor_height as i32,
                },
            ),
    decreases k,
{
    if k > 0 {
        lemma_door_sectors(map, ids, k - 1);
        let prev = door_sectors_upto(map, ids, k - 1);
        let cur = door_sectors_upto(map, ids, k);
        assert forall|j: int| 0 <= j < prev.len() implies cur[j] == prev[j] by {}
        assert forall|j: int| 0 <= j < cur.len() implies ids.contains((#[trigger] cur[j]).id) by {
            if j < prev.len() {
                assert(cur[j] == prev[j]);
                assert(ids.contains(prev[j].id));
            } else {
                assert(ids[k - 1] == cur[j].id);
            }
        }
        assert forall|i: int|
            0 <= i < k && map.sector_at(#[trigger] ids[i]) is Some && map.sector_at(ids[i])->0.ceiling_height != map.sector_at(
                ids[i],
            )->0.floor_height implies cur.contains(
                SectorFieldChange {
                    id: ids[i],
                    field: SectorIntField::CeilingHeight,
                    old: map.sector_at(ids[i])->0.ceiling_height as i32,
                    new: map.sector_at(ids[i])->0.floor_height as i32,
                },
            ) by {
            let c = SectorFieldChange {
                id: ids[i],
                field: SectorIntField::CeilingHeight,
                old: map.sector_at(ids[i])->0.ceiling_height as i32,
                new: map.sector_at(ids[i])->0.floor_height as i32,
            };
            if i < k - 1 {
                assert(prev.contains(c));
                let j = choose|j: int| 0 <= j < prev.len() && prev[j] == c;
                assert(cur[j] == c);
            } else {
                assert(cur[cur.len() - 1] == c);
            }
        }
    }
}

proof fn lemma_door_lines(map: &MapData, ids: Seq<SectorId>, k: int)
    requires
        0 <= k <= map.linedefs@.len(),
        k <= usize::MAX,
    ensures
        forall|j: int|
            0 <= j < door_lines_upto(map, ids, k).len() ==> {
                let c = #[trigger] door_lines_upto(map, ids, k)[j];
                let i = c.id.0 as int;
                &&& c.old == 0 && c.new == 1
                &&& 0 <= i < k
                &&& map.linedefs@[i] is Some
                &&& map.linedefs@[i]->0.special == 0
                &&& ((map.side_sector(map.linedefs@[i]->0.right) matches Some(s) && ids.contains(s)) || (map.side_sector(
                    map.linedefs@[i]->0.left,
                ) matches Some(s) && ids.contains(s)))
            },
        forall|i: int|
            0 <= i < k && map.linedefs@[i] is Some && map.linedefs@[i]->0.special == 0 && ((map.side_sector(
                map.linedefs@[i]->0.right,
            ) matches Some(s) && ids.contains(s)) || (map.side_sector(map.linedefs@[i]->0.left) matches Some(s)
                && ids.contains(s))) ==> #[trigger] door_lines_upto(map, ids, k).contains(
                LinedefSpecialChange { id: LinedefId(i as usize), old: 0, new: 1 },
            ),
    decreases k,
{
    if k > 0 {
        lemma_door_lines(map, ids, k - 1);
        let prev = door_lines_upto(map, ids, k - 1);
        let cur = door_lines_upto(map, ids, k);
        assert forall|j: int| 0 <= j < prev.len() implies cur[j] == prev[j] by {}
        assert forall|i: int|
            0 <= i < k && map.linedefs@[i] is Some && map.linedefs@[i]->0.special == 0 && ((map.side_sector(
                map.linedefs@[i]->0.right,
            ) matches Some(s) && ids.contains(s)) || (map.side_sector(map.linedefs@[i]->0.left) matches Some(s)
                && ids.contains(s))) implies #[trigger] cur.contains(LinedefSpecialChange { id: LinedefId(i as usize), old: 0, new: 1 }) by {
            let c = LinedefSpecialChange { id: LinedefId(i as usize), old: 0, new: 1 };
            if i < k - 1 {
                assert(prev.contains(c));
                let j = choose|j: int| 0 <= j < prev.len() && prev[j] == c;
                assert(cur[j] == c);
            } else {
                assert(cur[cur.len() - 1] == c);
            }
        }
    }
}

fn sector_listed(ids: &Vec<SectorId>, side: Option<SectorId>) -> (b: bool)
    ensures
        b == (side is Some && ids@.contains(side->0)),
{
    let s = match side {
        Some(x) => x,
        None => {
            return false;
        },
    };
    assert(side == Some(s));
    let mut i: usize = 0;
    while i < ids.len()
        invariant
            0 <= i <= ids@.len(),
            side == Some(s),
            forall|j: int| 0 <= j < i ==> ids@[j] != s,
        decreases ids@.len() - i,
    {
        if ids[i] == s {
            assert(ids@[i as int] == s);
            assert(ids@.contains(s));
            return true;
        }
        i = i + 1;
    }
    false
}

/// Make doors of `sectors`: their ceilings come down to their floors, and
/// the lines around them get the door action.
pub fn door_changes(map: &MapData, sectors: &Vec<SectorId>) -> (r: (Vec<SectorFieldChange>, Vec<LinedefSpecialChange>))
    ensures
        r.0@ == door_sectors_upto(map, sectors@, sectors@.len() as int),
        r.1@ == door_lines_upto(map, sectors@, map.linedefs@.len() as int),
        forall|j: int|
            0 <= j < r.0@.len() ==> {
                let c = #[trigger] r.0@[j];
                &&& sectors@.contains(c.id)
                &&& map.sector_at(c.id) is Some
                &&& c.field == SectorIntField::CeilingHeight
                &&& c.old == map.sector_at(c.id)->0.ceiling_height as i32
                &&& c.new == map.sector_at(c.id)->0.floor_height as i32
                &&& c.old != c.new
            },
        forall|i: int|
            0 <= i < sectors@.len() && map.sector_at(#[trigger] sectors@[i]) is Some && map.sector_at(sectors@[i])->0.ceiling_height
                != map.sector_at(sectors@[i])->0.floor_height ==> r.0@.contains(
                SectorFieldChange {
                    id: sectors@[i],
                    field: SectorIntField::CeilingHeight,
                    old: map.sector_at(sectors@[i])->0.ceiling_height as i32,
                    new: map.sector_at(sectors@[i])->0.floor_height as i32,
                },
            ),
        forall|j: int|
            0 <= j < r.1@.len() ==> {
                let c = #[trigger] r.1@[j];
                let i = c.id.0 as int;
                &&& c.old == 0 && c.new == 1
                &&& 0 <= i < map.linedefs@.len()
                &&& map.linedefs@[i] is Some
                &&& map.linedefs@[i]->0.special == 0
                &&& ((map.side_sector(map.linedefs@[i]->0.right) matches Some(s) && sectors@.contains(s)) || (
                map.side_sector(map.linedefs@[i]->0.left) matches Some(s) && sectors@.contains(s)))
            },
        forall|i: int|
            0 <= i < map.linedefs@.len() && map.linedefs@[i] is Some && map.linedefs@[i]->0.special == 0 && ((
            map.side_sector(map.linedefs@[i]->0.right) matches Some(s) && sectors@.contains(s)) || (map.side_sector(
                map.linedefs@[i]->0.left,
            ) matches Some(s) && sectors@.contains(s))) ==> #[trigger] r.1@.contains(
                LinedefSpecialChange { id: LinedefId(i as usize), old: 0, new: 1 },
            ),
{
    let slots = map.linedefs.len();
    proof {
        lemma_door_lines(map, sectors@, slots as int);
        lemma_door_sectors(map, sectors@, sectors@.len() as int);
    }
    let mut secs: Vec<SectorFieldChange> = Vec::new();
    let mut i: usize = 0;
    while i < sectors.len()
        invariant
            0 <= i <= sectors@.len(),
            secs@ == door_sectors_upto(map, sectors@, i as int),
        decreases sectors@.len() - i,
    {
        let id = sectors[i];
        if let Some(sec) = map.sector(id) {
            if sec.ceiling_height != sec.floor_height {
                secs.push(SectorFieldChange {
                    id,
                    field: SectorIntField::CeilingHeight,
                    old: sec.ceiling_height as i32,
                    new: sec.floor_height as i32,
                });
            }
        }
        i = i + 1;
    }
    let mut lines: Vec<LinedefSpecialChange> = Vec::new();
    let mut k: usize = 0;
    while k < map.linedefs.len()
        invariant
            0 <= k <= map.linedefs@.len(),
            lines@ == door_lines_upto(map, sectors@, k as int),
        decreases map.linedefs@.len() - k,
    {
        if let Some(l) = map.linedefs[k] {
            let touches = sector_listed(sectors, map.side_sector_of(l.right)) || sector_listed(sectors, map.side_sector_of(l.left));
            if touches && l.special == 0 {
                lines.push(LinedefSpecialChange { id: LinedefId(k), old: 0, new: 1 });
            }
        }
        k = k + 1;
    }
    (secs, lines)
}

/// Pasting a sector's properties: floor, ceiling, light, special and tag
/// of `src` onto each target sector that exists, five changes per target.
pub open spec fn paste_upto(map: &MapData, ids: Seq<SectorId>, src: MapSector, k: int) -> Seq<SectorFieldChange>
    decreases k,
{
    if k <= 0 {
        Seq::empty()
    } else {
        let prev = paste_upto(map, ids, src, k - 1);
        let id = ids[k - 1];
        match map.sector_at(id) {
            Some(s) => prev + seq![
                SectorFieldChange { id, field: SectorIntField::FloorHeight, old: s.floor_height as i32, new: src.floor_height as i32 },
                SectorFieldChange { id, field: SectorIntField::CeilingHeight, old: s.ceiling_height as i32, new: src.ceiling_height as i32 },
                SectorFieldChange { id, field: SectorIntField::Light, old: s.light as i32, new: src.light as i32 },
                SectorFieldChange { id, field: SectorIntField::Special, old: s.special as i32, new: src.special as i32 },
                SectorFieldChange { id, field: SectorIntField::Tag, old: s.tag as i32, new: src.tag as i32 },
            ],
            None => prev,
        }
    }
}

/// The change that sets `field` of the target at position `i` to the
/// source's value.
pub open spec fn paste_at(map: &MapData, ids: Seq<SectorId>, src: MapSector, i: int, field: SectorIntField) -> SectorFieldChange {
    SectorFieldChange {
        id: ids[i],
        field,
        old: field_value(map.sector_at(ids[i])->0, field),
        new: field_value(src, field),
    }
}

proof fn lemma_paste(map: &MapData, ids: Seq<SectorId>, src: MapSector, k: int)
    requires
        0 <= k <= ids.len(),
    ensures
        forall|i: int, f: SectorIntField|
            0 <= i < k && map.sector_at(ids[i]) is Some ==> paste_upto(map, ids, src, k).contains(
                #[trigger] paste_at(map, ids, src, i, f),
            ),
        forall|j: int|
            #![trigger paste_upto(map, ids, src, k)[j]]
            0 <= j < paste_upto(map, ids, src, k).len() ==> exists|i: int, f: SectorIntField|
                0 <= i < k && map.sector_at(ids[i]) is Some && paste_upto(map, ids, src, k)[j] == #[trigger] paste_at(
                    map,
                    ids,
                    src,
                    i,
                    f,
                ),
    decreases k,
{
    if k > 0 {
        lemma_paste(map, ids, src, k - 1);
        let prev = paste_upto(map, ids, src, k - 1);
        let cur = paste_upto(map, ids, src, k);
        assert forall|j: int| 0 <= j < prev.len() implies cur[j] == prev[j] by {}
        assert forall|i: int, f: SectorIntField| 0 <= i < k && map.sector_at(ids[i]) is Some implies cur.contains(
            #[trigger] paste_at(map, ids, src, i, f),
        ) by {
            let c = paste_at(map, ids, src, i, f);
            if i < k - 1 {
                assert(prev.contains(c));
                let j = choose|j: int| 0 <= j < prev.len() && prev[j] == c;
                assert(cur[j] == c);
            } else {
                let n = prev.len() as int;
                match f {
                    SectorIntField::FloorHeight => assert(cur[n] == c),
                    SectorIntField::CeilingHeight => assert(cur[n + 1] == c),
                    SectorIntField::Light => assert(cur[n + 2] == c),
                    SectorIntField::Special => assert(cur[n + 3] == c),
                    SectorIntField::Tag => assert(cur[n + 4] == c),
                }
            }
        }
        assert forall|j: int|
            #![trigger cur[j]]
            0 <= j < cur.len() implies exists|i: int, f: SectorIntField|
                0 <= i < k && map.sector_at(ids[i]) is Some && cur[j] == #[trigger] paste_at(map, ids, src, i, f) by {
            if j < prev.len() {
                let (i, f) = choose|i: int, f: SectorIntField|
                    0 <= i < k - 1 && map.sector_at(ids[i]) is Some && prev[j] == #[trigger] paste_at(map, ids, src, i, f);
                assert(cur[j] == paste_at(map, ids, src, i, f));
            } else {
                let n = prev.len() as int;
                if j == n {
                    assert(cur[j] == paste_at(map, ids, src, k - 1, SectorIntField::FloorHeight));
                } else if j == n + 1 {
                    assert(cur[j] == paste_at(map, ids, src, k - 1, SectorIntField::CeilingHeight));
                } else if j == n + 2 {
                    assert(cur[j] == paste_at(map, ids, src, k - 1, SectorIntField::Light));
                } else if j == n + 3 {
                    assert(cur[j] == paste_at(map, ids, src, k - 1, SectorIntField::Special));
                } else {
                    assert(cur[j] == paste_at(map, ids, src, k - 1, SectorIntField::Tag));
                }
            }
        }
    }
}

/// Every field of every target that exists is set to the source's value,
/// and nothing else changes.
pub fn paste_property_changes(map: &MapData, targets: &Vec<SectorId>, src: &MapSector) -> (r: Vec<SectorFieldChange>)
    ensures
        r@ == paste_upto(map, targets@, *src, targets@.len() as int),
        forall|i: int, f: SectorIntField|
            0 <= i < targets@.len() && map.sector_at(targets@[i]) is Some ==> r@.contains(
                #[trigger] paste_at(map, targets@, *src, i, f),
            ),
        forall|j: int|
            #![trigger r@[j]]
            0 <= j < r@.len() ==> exists|i: int, f: SectorIntField|
                0 <= i < targets@.len() && map.sector_at(targets@[i]) is Some && r@[j] == #[trigger] paste_at(
                    map,
                    targets@,
                    *src,
                    i,
                    f,
                ),
{
    proof {
        lemma_paste(map, targets@, *src, targets@.len() as int);
    }
    let mut out: Vec<SectorFieldChange> = Vec::new();
    let mut i: usize = 0;
    while i < targets.len()
        invariant
            0 <= i <= targets@.len(),
            out@ == paste_upto(map, targets@, *src, i as int),
        decreases targets@.len() - i,
    {
        let id = targets[i];
        if let Some(s) = map.sector(id) {
            let ghost before = out@;
            out.push(SectorFieldChange { id, field: SectorIntField::FloorHeight, old: s.floor_height as i32, new: src.floor_height as i32 });
            out.push(SectorFieldChange { id, field: SectorIntField::CeilingHeight, old: s.ceiling_height as i32, new: src.ceiling_height as i32 });
            out.push(SectorFieldChange { id, field: SectorIntField::Light, old: s.light as i32, new: src.light as i32 });
            out.push(SectorFieldChange { id, field: SectorIntField::Special, old: s.special as i32, new: src.special as i32 });
            out.push(SectorFieldChange { id, field: SectorIntField::Tag, old: s.tag as i32, new: src.tag as i32 });
            proof {
                let sec = map.sector_at(id)->0;
                assert(out@ =~= paste_upto(map, targets@, *src, i as int) + seq![
                    SectorFieldChange { id, field: SectorIntField::FloorHeight, old: sec.floor_height as i32, new: src.floor_height as i32 },
                    SectorFieldChange { id, field: SectorIntField::CeilingHeight, old: sec.ceiling_height as i32, new: src.ceiling_height as i32 },
                    SectorFieldChange { id, field: SectorIntField::Light, old: sec.light as i32, new: src.light as i32 },
                    SectorFieldChange { id, field: SectorIntField::Special, old: sec.special as i32, new: src.special as i32 },
                    SectorFieldChange { id, field: SectorIntField::Tag, old: sec.tag as i32, new: src.tag as i32 },
                ]);
            }
        }
        i = i + 1;
    }
    out
}


// ---------------------------------------------------------------------------
// Laws.

/// Rounding a multiple of `d` divided by `d` gives the exact quotient.
proof fn lemma_round_div_exact(k: int, d: int)
    requires
        d >= 1,
    ensures
        round_div(k * d, d) == k,
{
    if k >= 0 {
        assert(k * d >= 0) by (nonlinear_arith)
            requires
                k >= 0,
                d >= 1,
        ;
        assert(2 * (k * d) + d == (2 * d) * k + d) by (nonlinear_arith);
        vstd::arithmetic::div_mod::lemma_fundamental_div_mod_converse(2 * (k * d) + d, 2 * d, k, d);
    } else {
        assert(k * d < 0) by (nonlinear_arith)
            requires
                k < 0,
                d >= 1,
        ;
        assert(-2 * (k * d) + d == (2 * d) * (-k) + d) by (nonlinear_arith);
        vstd::arithmetic::div_mod::lemma_fundamental_div_mod_converse(-2 * (k * d) + d, 2 * d, -k, d);
    }
}

/// A gradient starts at the first sector's value and ends at the last's:
/// position 0 of `n` targets `first`, position `n - 1` targets `last`.
pub proof fn lemma_gradient_ends(first: int, last: int, n: int)
    requires
        n >= 2,
    ensures
        gradient_target(first, last, 0, n) == first,
        gradient_target(first, last, n - 1, n) == last,
{
    lemma_round_div_exact(first, n - 1);
    assert(first * (n - 1) + (last - first) * (n - 1) == last * (n - 1)) by (nonlinear_arith);
    lemma_round_div_exact(last, n - 1);
}

/// Each gradient target is the value interpolated linearly between the
/// first and the last, rounded to the nearest integer: the target times
/// `n - 1` lies within half of `n - 1` of `first * (n - 1) + (last - first) * i`.
pub proof fn lemma_gradient_nearest(first: int, last: int, i: int, n: int)
    requires
        n >= 2,
    ensures
        2 * (gradient_target(first, last, i, n) * (n - 1) - (first * (n - 1) + (last - first) * i)) <= n - 1,
        2 * ((first * (n - 1) + (last - first) * i) - gradient_target(first, last, i, n) * (n - 1)) <= n - 1,
{
    lemma_snap_nearest(first * (n - 1) + (last - first) * i, n - 1);
}

/// Snapping lands on a multiple of the step, at most half a step away: no
/// multiple of the step is nearer.
pub proof fn lemma_snap_nearest(v: int, step: int)
    requires
        step >= 1,
    ensures
        snap_coord(v, step) % step == 0,
        2 * (snap_coord(v, step) - v) <= step,
        2 * (v - snap_coord(v, step)) <= step,
        forall|m: int| #![trigger (m * step)] (m * step - v) * (m * step - v) >= (snap_coord(v, step) - v) * (snap_coord(v, step) - v),
{
    let q = round_div(v, step);
    vstd::arithmetic::div_mod::lemma_mod_multiples_basic(q, step);
    let a = if v >= 0 { v } else { -v };
    let x = 2 * a + step;
    let d = 2 * step;
    vstd::arithmetic::div_mod::lemma_fundamental_div_mod(x, d);
    vstd::arithmetic::div_mod::lemma_mod_bound(x, d);
    let p = x / d;
    assert(0 <= 2 * a + step - 2 * step * p < 2 * step);
    if v >= 0 {
        assert(q == p);
        assert(-step <= 2 * (q * step - v) <= step) by (nonlinear_arith)
            requires
                0 <= 2 * v + step - 2 * step * q < 2 * step,
        ;
    } else {
        assert(q == -p);
        assert(2 * step * q == -(2 * step * p)) by (nonlinear_arith)
            requires
                q == -p,
        ;
        assert(-step <= 2 * (q * step - v) <= step) by (nonlinear_arith)
            requires
                0 <= -2 * v + step + 2 * step * q < 2 * step,
        ;
    }
    assert forall|m: int| #![trigger (m * step)] (m * step - v) * (m * step - v) >= (q * step - v) * (q * step - v) by {
        let e = q * step - v;
        let f = m * step - v;
        assert(m * step - q * step == (m - q) * step) by (nonlinear_arith);
        if m != q {
            assert(f * f >= e * e) by (nonlinear_arith)
                requires
                    f - e == (m - q) * step,
                    m != q,
                    step >= 1,
                    -step <= 2 * e <= step,
            ;
        }
    }
}

} // verus!
