//! Free drawing: each click adds a vertex (or snaps to an existing one) and
//! a linedef from the previous click, straight into the map, while the chain
//! records what was added so that it can be committed as one undoable
//! command, shortened click by click, or cancelled.

use vstd::prelude::*;

use crate::map::{LinedefId, MapData, MapLinedef, MapVertex, VertexId};
use crate::shapes::DrawTool;
use crate::spatial::{coord_ok, dist2, point_pick, point_within, radius_ok, SpatialIndex, SUBUNITS};

verus! {

/// One end of a drawn linedef: a vertex that was in the map before, or the
/// `i`-th vertex the chain added.
#[derive(Clone, Copy, Debug, PartialEq, Eq, Structural)]
pub enum LineEndpoint {
    Existing(VertexId),
    New(usize),
}

/// What a drawing has added to the map so far.
#[derive(Clone, Debug)]
pub struct LinedefChain {
    /// The vertices the chain added, in order.
    pub vertex_inserts: Vec<MapVertex>,
    /// The linedefs the chain added: from-end, to-end, and the linedef.
    pub linedefs: Vec<(LineEndpoint, LineEndpoint, MapLinedef)>,
    /// Ids of the added vertices in the map, in the same order.
    pub current_v: Vec<VertexId>,
    /// Ids of the added linedefs in the map, in the same order.
    pub current_l: Vec<LinedefId>,
}

/// A drawing in progress.
#[derive(Clone, Debug)]
pub struct DrawingState<P> {
    pub chain: LinedefChain,
    /// The vertex the next linedef starts from.
    pub last: Option<(VertexId, LineEndpoint)>,
    pub tool: DrawTool<P>,
}

/// The linedef a drawing click adds: from `v1` to `v2`, no sides, flags,
/// special or tag.
pub open spec fn blank_linedef(v1: VertexId, v2: VertexId) -> MapLinedef {
    MapLinedef { v1, v2, flags: 0, special: 0, args: [0u8, 0u8, 0u8, 0u8, 0u8], tag: 0, right: None, left: None }
}

/// A drawing as values: added vertices, added linedefs with their ends,
/// ids of the added vertices, ids of the added linedefs, and where the next
/// linedef starts.
pub type ChainView = (
    Seq<MapVertex>,
    Seq<(LineEndpoint, LineEndpoint, MapLinedef)>,
    Seq<VertexId>,
    Seq<LinedefId>,
    Option<(VertexId, LineEndpoint)>,
);

pub open spec fn chain_view<P>(d: DrawingState<P>) -> ChainView {
    (d.chain.vertex_inserts@, d.chain.linedefs@, d.chain.current_v@, d.chain.current_l@, d.last)
}

impl<P> DrawingState<P> {
    /// The chain's lists of added items and of their ids stay in step.
    pub open spec fn wf(&self) -> bool {
        &&& self.chain.current_v@.len() == self.chain.vertex_inserts@.len()
        &&& self.chain.current_l@.len() == self.chain.linedefs@.len()
    }

    /// A new drawing with the given tool and nothing drawn.
    pub fn new(tool: DrawTool<P>) -> (d: Self)
        ensures
            d.wf(),
            d.chain.vertex_inserts@.len() == 0,
            d.chain.linedefs@.len() == 0,
            d.last is None,
            d.tool == tool,
    {
        DrawingState {
            chain: LinedefChain { vertex_inserts: Vec::new(), linedefs: Vec::new(), current_v: Vec::new(), current_l: Vec::new() },
            last: None,
            tool,
        }
    }

    /// Whether committing would add nothing.
    pub fn is_empty(&self) -> (b: bool)
        ensures
            b == (self.chain.linedefs@.len() == 0 && self.chain.vertex_inserts@.len() == 0),
    {
        self.chain.linedefs.len() == 0 && self.chain.vertex_inserts.len() == 0
    }
}

/// The vertex a click lands on: the snapped vertex, else the one it adds.
pub open spec fn click_target(map: &MapData, snapped: Option<VertexId>) -> VertexId {
    match snapped {
        Some(v) => v,
        None => VertexId(map.vertices@.len() as usize),
    }
}

pub open spec fn click_endpoint<P>(d: DrawingState<P>, snapped: Option<VertexId>) -> LineEndpoint {
    match snapped {
        Some(v) => LineEndpoint::Existing(v),
        None => LineEndpoint::New(d.chain.vertex_inserts@.len() as usize),
    }
}

/// The click adds a linedef: there is a previous vertex and it is not the
/// one clicked.
pub open spec fn click_adds_line<P>(d: DrawingState<P>, map: &MapData, snapped: Option<VertexId>) -> bool {
    d.last matches Some((from, _)) && from != click_target(map, snapped)
}

/// The drawing after a click, when the map holds `nv` vertex slots and `nl`
/// linedef slots.
pub open spec fn clicked_view(c: ChainView, nv: nat, nl: nat, snapped: Option<VertexId>, placed: MapVertex) -> ChainView {
    let target = match snapped {
        Some(v) => v,
        None => VertexId(nv as usize),
    };
    let tep = match snapped {
        Some(v) => LineEndpoint::Existing(v),
        None => LineEndpoint::New(c.0.len() as usize),
    };
    let ins = if snapped is None { c.0.push(placed) } else { c.0 };
    let vs = if snapped is None { c.2.push(target) } else { c.2 };
    let adds = c.4 matches Some((from, _)) && from != target;
    let from = c.4->0;
    let lines = if adds { c.1.push((from.1, tep, blank_linedef(from.0, target))) } else { c.1 };
    let ls = if adds { c.3.push(LinedefId(nl as usize)) } else { c.3 };
    (ins, lines, vs, ls, Some((target, tep)))
}

impl<P> DrawingState<P> {
    /// A click of the free drawing tool. `snapped` is the existing vertex the
    /// click snapped to, if any; otherwise a vertex is added at `placed`.
    /// A linedef is added from the previous vertex unless it is the same
    /// one. Returns whether the click closes the loop: at least three
    /// linedefs, the last ending where the first began.
    pub fn click(&mut self, map: &mut MapData, snapped: Option<VertexId>, placed: MapVertex) -> (closes: bool)
        requires
            old(self).wf(),
            old(map).vertices@.len() < usize::MAX,
            old(map).linedefs@.len() < usize::MAX,
        ensures
            final(self).wf(),
            final(self).tool == old(self).tool,
            chain_view(*final(self)) == clicked_view(
                chain_view(*old(self)),
                old(map).vertices@.len(),
                old(map).linedefs@.len(),
                snapped,
                placed,
            ),
            final(self).last == Some((click_target(old(map), snapped), click_endpoint(*old(self), snapped))),
            snapped is Some ==> {
                &&& final(map).vertices@ == old(map).vertices@
                &&& final(self).chain.vertex_inserts@ == old(self).chain.vertex_inserts@
                &&& final(self).chain.current_v@ == old(self).chain.current_v@
            },
            snapped is None ==> {
                &&& final(map).vertices@ == old(map).vertices@.push(Some(placed))
                &&& final(self).chain.vertex_inserts@ == old(self).chain.vertex_inserts@.push(placed)
                &&& final(self).chain.current_v@ == old(self).chain.current_v@.push(click_target(old(map), snapped))
            },
            click_adds_line(*old(self), old(map), snapped) ==> {
                let from = old(self).last->0;
                let l = final(self).chain.linedefs@.last();
                &&& final(self).chain.linedefs@ == old(self).chain.linedefs@.push(l)
                &&& l.0 == from.1 && l.1 == click_endpoint(*old(self), snapped)
                &&& l.2 == blank_linedef(from.0, click_target(old(map), snapped))
                &&& final(self).chain.current_l@ == old(self).chain.current_l@.push(LinedefId(old(map).linedefs@.len() as usize))
                &&& final(map).linedefs@ == old(map).linedefs@.push(Some(l.2))
            },
            !click_adds_line(*old(self), old(map), snapped) ==> {
                &&& final(self).chain.linedefs@ == old(self).chain.linedefs@
                &&& final(self).chain.current_l@ == old(self).chain.current_l@
                &&& final(map).linedefs@ == old(map).linedefs@
            },
            final(map).sidedefs@ == old(map).sidedefs@,
            final(map).sectors@ == old(map).sectors@,
            final(map).things@ == old(map).things@,
            closes == (final(self).chain.linedefs@.len() >= 3 && final(self).chain.linedefs@[0].2.v1 == click_target(
                old(map),
                snapped,
            )),
    {
        let (target, target_ep) = match snapped {
            Some(v) => (v, LineEndpoint::Existing(v)),
            None => {
                let id = map.insert_vertex(placed);
                self.chain.vertex_inserts.push(placed);
                self.chain.current_v.push(id);
                (id, LineEndpoint::New(self.chain.vertex_inserts.len() - 1))
            },
        };
        match self.last {
            Some((from, from_ep)) => {
                if from != target {
                    let line = MapLinedef {
                        v1: from,
                        v2: target,
                        flags: 0,
                        special: 0,
                        args: [0u8, 0u8, 0u8, 0u8, 0u8],
                        tag: 0,
                        right: None,
                        left: None,
                    };
                    let lid = map.insert_linedef(line);
                    self.chain.current_l.push(lid);
                    self.chain.linedefs.push((from_ep, target_ep, line));
                }
            },
            None => {},
        }
        self.last = Some((target, target_ep));
        self.chain.linedefs.len() >= 3 && self.chain.linedefs[0].2.v1 == target
    }
}

/// Slot `i` is one of `ids`.
pub open spec fn names(ids: Seq<usize>, i: int) -> bool {
    exists|j: int| 0 <= j < ids.len() && ids[j] == i
}

/// `s` with the slots named by `ids` emptied.
pub open spec fn cleared<T>(s: Seq<Option<T>>, ids: Seq<usize>) -> Seq<Option<T>> {
    Seq::new(s.len(), |i: int| if names(ids, i) { None } else { s[i] })
}

proof fn lemma_names_single(x: usize, i: int)
    ensures
        names(seq![x], i) <==> i == x,
{
    if i == x {
        assert(seq![x][0] == x);
    }
}

proof fn lemma_names_first(ids: Seq<usize>, i: int)
    requires
        ids.len() > 0,
    ensures
        names(ids, i) <==> (ids[0] == i || names(ids.drop_first(), i)),
{
    if names(ids, i) {
        let j = choose|j: int| 0 <= j < ids.len() && ids[j] == i;
        if j > 0 {
            assert(ids.drop_first()[j - 1] == i);
        }
    }
    if names(ids.drop_first(), i) {
        let j = choose|j: int| 0 <= j < ids.drop_first().len() && ids.drop_first()[j] == i;
        assert(ids[j + 1] == i);
    }
}

pub open spec fn vertex_slots(ids: Seq<VertexId>) -> Seq<usize> {
    ids.map_values(|v: VertexId| v.0)
}

pub open spec fn linedef_slots(ids: Seq<LinedefId>) -> Seq<usize> {
    ids.map_values(|l: LinedefId| l.0)
}

/// Whether taking back the last click also takes back a vertex: when the
/// last linedef ended at a vertex the chain added, or when there is no
/// linedef yet (only the starting vertex).
pub open spec fn drops_vertex(lines: Seq<(LineEndpoint, LineEndpoint, MapLinedef)>) -> bool {
    if lines.len() == 0 {
        true
    } else {
        lines.last().1 is New
    }
}

/// Where the drawing continues from after linedefs `lines` and added
/// vertices `vs`: the end of the last linedef, else the last added vertex,
/// else nowhere.
pub open spec fn resumed_last(
    lines: Seq<(LineEndpoint, LineEndpoint, MapLinedef)>,
    vs: Seq<VertexId>,
    n_inserts: nat,
) -> Option<(VertexId, LineEndpoint)> {
    if lines.len() > 0 {
        let l = lines.last();
        Some(
            (
                match l.1 {
                    LineEndpoint::Existing(v) => v,
                    LineEndpoint::New(_) => l.2.v2,
                },
                l.1,
            ),
        )
    } else if vs.len() > 0 {
        Some((vs.last(), LineEndpoint::New((n_inserts - 1) as usize)))
    } else {
        None
    }
}

/// The drawing after taking back its last click.
pub open spec fn removed_view(c: ChainView) -> ChainView {
    if c.2.len() == 0 && c.3.len() == 0 {
        c
    } else {
        let lines = if c.1.len() > 0 { c.1.drop_last() } else { c.1 };
        let ls = if c.3.len() > 0 { c.3.drop_last() } else { c.3 };
        let dv = drops_vertex(c.1) && c.2.len() > 0;
        let vs = if dv { c.2.drop_last() } else { c.2 };
        let ins = if dv { c.0.drop_last() } else { c.0 };
        (ins, lines, vs, ls, resumed_last(lines, vs, ins.len()))
    }
}

impl<P> DrawingState<P> {
    /// Take back the last click: its linedef, and its vertex when the click
    /// added one. Nothing happens when nothing has been drawn.
    pub fn remove_last(&mut self, map: &mut MapData)
        requires
            old(self).wf(),
        ensures
            final(self).wf(),
            final(self).tool == old(self).tool,
            chain_view(*final(self)) == removed_view(chain_view(*old(self))),
            ({
                let c = old(self).chain;
                if c.current_v@.len() == 0 && c.current_l@.len() == 0 {
                    &&& final(self).chain.vertex_inserts@ == c.vertex_inserts@
                    &&& final(self).chain.linedefs@ == c.linedefs@
                    &&& final(self).chain.current_v@ == c.current_v@
                    &&& final(self).chain.current_l@ == c.current_l@
                    &&& final(self).last == old(self).last
                    &&& final(map).vertices@ == old(map).vertices@
                    &&& final(map).linedefs@ == old(map).linedefs@
                } else {
                    let lines = if c.linedefs@.len() > 0 { c.linedefs@.drop_last() } else { c.linedefs@ };
                    let lids = if c.current_l@.len() > 0 { c.current_l@.drop_last() } else { c.current_l@ };
                    let dv = drops_vertex(c.linedefs@) && c.current_v@.len() > 0;
                    let vs = if dv { c.current_v@.drop_last() } else { c.current_v@ };
                    let ins = if dv { c.vertex_inserts@.drop_last() } else { c.vertex_inserts@ };
                    &&& final(self).chain.linedefs@ == lines
                    &&& final(self).chain.current_l@ == lids
                    &&& final(self).chain.current_v@ == vs
                    &&& final(self).chain.vertex_inserts@ == ins
                    &&& final(self).last == resumed_last(lines, vs, ins.len())
                    &&& final(map).linedefs@ == (if c.current_l@.len() > 0 {
                        cleared(old(map).linedefs@, seq![c.current_l@.last().0])
                    } else {
                        old(map).linedefs@
                    })
                    &&& final(map).vertices@ == (if dv {
                        cleared(old(map).vertices@, seq![c.current_v@.last().0])
                    } else {
                        old(map).vertices@
                    })
                }
            }),
            final(map).sidedefs@ == old(map).sidedefs@,
            final(map).sectors@ == old(map).sectors@,
            final(map).things@ == old(map).things@,
    {
        if self.chain.current_v.len() == 0 && self.chain.current_l.len() == 0 {
            return;
        }
        let dropped_new_vertex = if self.chain.linedefs.len() == 0 {
            true
        } else {
            let k = self.chain.linedefs.len() - 1;
            match self.chain.linedefs[k].1 {
                LineEndpoint::New(_) => true,
                LineEndpoint::Existing(_) => false,
            }
        };
        let ghost old_lines = map.linedefs@;
        let ghost old_verts = map.vertices@;
        match self.chain.current_l.pop() {
            Some(lid) => {
                map.remove_linedef(lid);
                self.chain.linedefs.pop();
                assert forall|i: int| 0 <= i < old_lines.len() implies names(seq![lid.0], i) <==> i == lid.0 by {
                    lemma_names_single(lid.0, i);
                }
                assert(map.linedefs@ =~= cleared(old_lines, seq![lid.0]));
            },
            None => {},
        }
        if dropped_new_vertex {
            match self.chain.current_v.pop() {
                Some(vid) => {
                    map.remove_vertex(vid);
                    self.chain.vertex_inserts.pop();
                    assert forall|i: int| 0 <= i < old_verts.len() implies names(seq![vid.0], i) <==> i == vid.0 by {
                        lemma_names_single(vid.0, i);
                    }
                    assert(map.vertices@ =~= cleared(old_verts, seq![vid.0]));
                },
                None => {},
            }
        }
        let n = self.chain.linedefs.len();
        if n > 0 {
            let l = self.chain.linedefs[n - 1];
            let to = match l.1 {
                LineEndpoint::Existing(v) => v,
                LineEndpoint::New(_) => l.2.v2,
            };
            self.last = Some((to, l.1));
        } else {
            let m = self.chain.current_v.len();
            if m > 0 {
                self.last = Some((self.chain.current_v[m - 1], LineEndpoint::New(self.chain.vertex_inserts.len() - 1)));
            } else {
                self.last = None;
            }
        }
    }

    /// Cancel the drawing: empty the slots of every linedef and vertex it
    /// added.
    pub fn cancel(self, map: &mut MapData)
        ensures
            final(map).linedefs@ == cleared(old(map).linedefs@, linedef_slots(self.chain.current_l@)),
            final(map).vertices@ == cleared(old(map).vertices@, vertex_slots(self.chain.current_v@)),
            final(map).sidedefs@ == old(map).sidedefs@,
            final(map).sectors@ == old(map).sectors@,
            final(map).things@ == old(map).things@,
    {
        let ls = &self.chain.current_l;
        let vs = &self.chain.current_v;
        assert(cleared(map.linedefs@, linedef_slots(ls@.subrange(ls@.len() as int, ls@.len() as int))) =~= map.linedefs@);
        let mut k: usize = ls.len();
        while k > 0
            invariant
                0 <= k <= ls@.len(),
                map.linedefs@ == cleared(old(map).linedefs@, linedef_slots(ls@.subrange(k as int, ls@.len() as int))),
                map.vertices@ == old(map).vertices@,
                map.sidedefs@ == old(map).sidedefs@,
                map.sectors@ == old(map).sectors@,
                map.things@ == old(map).things@,
            decreases k,
        {
            k = k - 1;
            let ghost before = map.linedefs@;
            map.remove_linedef(ls[k]);
            proof {
                let now = linedef_slots(ls@.subrange(k as int, ls@.len() as int));
                let prev = linedef_slots(ls@.subrange(k + 1, ls@.len() as int));
                assert(now.drop_first() =~= prev);
                assert(now[0] == ls@[k as int].0);
                assert forall|i: int| 0 <= i < old(map).linedefs@.len() implies (#[trigger] names(now, i) <==> (names(prev, i)
                    || i == ls@[k as int].0)) by {
                    lemma_names_first(now, i);
                }
                assert(map.linedefs@ =~= cleared(old(map).linedefs@, now));
            }
        }
        assert(ls@.subrange(0, ls@.len() as int) =~= ls@);
        assert(cleared(old(map).vertices@, vertex_slots(vs@.subrange(vs@.len() as int, vs@.len() as int))) =~= map.vertices@);
        let mut k: usize = vs.len();
        while k > 0
            invariant
                0 <= k <= vs@.len(),
                map.vertices@ == cleared(old(map).vertices@, vertex_slots(vs@.subrange(k as int, vs@.len() as int))),
                map.linedefs@ == cleared(old(map).linedefs@, linedef_slots(ls@)),
                map.sidedefs@ == old(map).sidedefs@,
                map.sectors@ == old(map).sectors@,
                map.things@ == old(map).things@,
            decreases k,
        {
            k = k - 1;
            map.remove_vertex(vs[k]);
            proof {
                let now = vertex_slots(vs@.subrange(k as int, vs@.len() as int));
                let prev = vertex_slots(vs@.subrange(k + 1, vs@.len() as int));
                assert(now.drop_first() =~= prev);
                assert(now[0] == vs@[k as int].0);
                assert forall|i: int| 0 <= i < old(map).vertices@.len() implies (#[trigger] names(now, i) <==> (names(prev, i)
                    || i == vs@[k as int].0)) by {
                    lemma_names_first(now, i);
                }
                assert(map.vertices@ =~= cleared(old(map).vertices@, now));
            }
        }
        assert(vs@.subrange(0, vs@.len() as int) =~= vs@);
    }
}

// ---------------------------------------------------------------------------
// Snapping a click to a vertex.

/// Squared fixed-point distance from (x, y) to the `k`-th vertex of `vs`
/// (`SUBUNITS` steps per map unit).
pub open spec fn chain_d2(map: &MapData, vs: Seq<VertexId>, k: int, x: int, y: int) -> int {
    let p = map.vertex_at(vs[k])->0;
    dist2(p.x * SUBUNITS, p.y * SUBUNITS, x, y)
}

/// The `k`-th vertex of `vs` exists and lies within squared distance `r2`.
pub open spec fn chain_within(map: &MapData, vs: Seq<VertexId>, k: int, x: int, y: int, r2: int) -> bool {
    0 <= k < vs.len() && map.vertex_at(vs[k]) is Some && chain_d2(map, vs, k, x, y) <= r2
}

/// The `k`-th vertex of `vs` is the first of the nearest ones within `r2`.
pub open spec fn chain_pick(map: &MapData, vs: Seq<VertexId>, k: int, x: int, y: int, r2: int) -> bool {
    &&& chain_within(map, vs, k, x, y, r2)
    &&& forall|j: int| #[trigger] chain_within(map, vs, j, x, y, r2) ==> chain_d2(map, vs, k, x, y) <= chain_d2(map, vs, j, x, y)
    &&& forall|j: int| 0 <= j < k && #[trigger] chain_within(map, vs, j, x, y, r2) ==> chain_d2(map, vs, k, x, y) < chain_d2(map, vs, j, x, y)
}

/// The vertex a drawing click at (x, y) snaps to: the nearest vertex of the
/// index within `r`, else the first of the nearest vertices the drawing
/// added (which the index does not hold yet) within `r`.
pub fn snap_target(index: &SpatialIndex, map: &MapData, added: &Vec<VertexId>, x: i64, y: i64, r: i64) -> (res: Option<VertexId>)
    requires
        index.wf(),
        coord_ok(x as int),
        coord_ok(y as int),
        radius_ok(r as int),
    ensures
        point_within(index.vertex_set(), x as int, y as int, r * r) ==> (res matches Some(v) && point_pick(
            index.vertex_set(),
            x as int,
            y as int,
            r * r,
            v.0,
        )),
        !point_within(index.vertex_set(), x as int, y as int, r * r) ==> match res {
            Some(v) => exists|k: int| chain_pick(map, added@, k, x as int, y as int, r * r) && added@[k] == v,
            None => forall|k: int| !#[trigger] chain_within(map, added@, k, x as int, y as int, r * r),
        },
{
    if let Some(v) = index.nearest_vertex(x, y, r) {
        return Some(v);
    }
    assert(0 <= r * r <= 4398046511104) by (nonlinear_arith)
        requires
            -2097152 <= r <= 2097152,
    ;
    let r2: i128 = (r as i128) * (r as i128);
    let mut best: Option<(i128, usize)> = None;
    let mut i: usize = 0;
    while i < added.len()
        invariant
            0 <= i <= added@.len(),
            r2 == r * r,
            coord_ok(x as int),
            coord_ok(y as int),
            match best {
                Some((d, k)) => {
                    &&& 0 <= k < i
                    &&& d == chain_d2(map, added@, k as int, x as int, y as int)
                    &&& chain_within(map, added@, k as int, x as int, y as int, r * r)
                    &&& forall|j: int| 0 <= j < i && #[trigger] chain_within(map, added@, j, x as int, y as int, r * r) ==> d <= chain_d2(map, added@, j, x as int, y as int)
                    &&& forall|j: int| 0 <= j < k && #[trigger] chain_within(map, added@, j, x as int, y as int, r * r) ==> d < chain_d2(map, added@, j, x as int, y as int)
                },
                None => forall|j: int| 0 <= j < i ==> !#[trigger] chain_within(map, added@, j, x as int, y as int, r * r),
            },
        decreases added@.len() - i,
    {
        match map.vertex(added[i]) {
            Some(p) => {
                let dx: i128 = (p.x as i128) * (SUBUNITS as i128) - (x as i128);
                let dy: i128 = (p.y as i128) * (SUBUNITS as i128) - (y as i128);
                assert(0 <= dx * dx <= 0x1_0000_0000_0000_0000_0000_0000_0000i128 && 0 <= dy * dy <= 0x1_0000_0000_0000_0000_0000_0000_0000i128)
                    by (nonlinear_arith)
                    requires
                        -0x10_0000_0000 <= dx <= 0x10_0000_0000,
                        -0x10_0000_0000 <= dy <= 0x10_0000_0000,
                ;
                let d: i128 = dx * dx + dy * dy;
                assert(d == chain_d2(map, added@, i as int, x as int, y as int));
                if d <= r2 {
                    let better = match best {
                        Some((bd, _)) => d < bd,
                        None => true,
                    };
                    if better {
                        best = Some((d, i));
                    }
                }
            },
            None => {},
        }
        i = i + 1;
    }
    match best {
        Some((_, k)) => {
            proof {
                assert(chain_pick(map, added@, k as int, x as int, y as int, r * r));
            }
            Some(added[k])
        },
        None => None,
    }
}

/// Taking back a click that added a vertex and a linedef gives back the
/// chain as it was before the click, and the drawing goes on from the end
/// of that chain.
pub proof fn lemma_remove_last_undoes_click(c: ChainView, nv: nat, nl: nat, placed: MapVertex)
    requires
        c.2.len() == c.0.len(),
        c.3.len() == c.1.len(),
        c.4 matches Some((from, _)) && from != VertexId(nv as usize),
    ensures
        removed_view(clicked_view(c, nv, nl, None, placed)) == (c.0, c.1, c.2, c.3, resumed_last(c.1, c.2, c.0.len())),
{
    let k = clicked_view(c, nv, nl, None, placed);
    assert(k.1.drop_last() =~= c.1);
    assert(k.3.drop_last() =~= c.3);
    assert(k.2.drop_last() =~= c.2);
    assert(k.0.drop_last() =~= c.0);
}

} // verus!
