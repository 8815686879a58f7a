//! Recover closed edge loops for each sector by walking its linedef edges.
//! Tolerant of T-junctions and unclosed loops: edges that cannot be stitched
//! into a closed loop are reported as orphans, the rest is still returned.

use vstd::prelude::*;
use vstd::multiset::Multiset;

use crate::map::{MapData, MapLinedef, SectorId, VertexId};

verus! {

/// One linedef edge of a sector, from its first to its second vertex.
#[derive(Clone, Copy, Debug, PartialEq, Eq, Structural)]
pub struct Edge {
    pub a: VertexId,
    pub b: VertexId,
}

/// All closed loops belonging to one sector. Each loop is an ordered list of
/// vertex ids; loops are not winding-canonicalised.
#[derive(Clone, Debug)]
pub struct SectorLoops {
    pub loops: Vec<Vec<VertexId>>,
    /// Edges that belong to the sector but could not be stitched into a
    /// closed loop.
    pub orphan_edges: Vec<(VertexId, VertexId)>,
}

impl SectorLoops {
    pub open spec fn loops_view(&self) -> Seq<Seq<VertexId>> {
        self.loops@.map_values(|l: Vec<VertexId>| l@)
    }
}

// ---------------------------------------------------------------------------
// Grouping linedef edges by the sector of each side.

/// The (sector, edge) records that one linedef contributes: first for its
/// right side, then for its left side, each only when that sidedef exists.
pub open spec fn line_events(map: &MapData, line: MapLinedef) -> Seq<(SectorId, Edge)> {
    let e = Edge { a: line.v1, b: line.v2 };
    let r = match map.side_sector(line.right) {
        Some(s) => seq![(s, e)],
        None => Seq::empty(),
    };
    let l = match map.side_sector(line.left) {
        Some(s) => seq![(s, e)],
        None => Seq::empty(),
    };
    r + l
}

/// The records of the first `k` linedef slots, in slot order.
pub open spec fn events_upto(map: &MapData, k: int) -> Seq<(SectorId, Edge)>
    decreases k,
{
    if k <= 0 {
        Seq::empty()
    } else {
        events_upto(map, k - 1) + match slot_line(map, k - 1) {
            Some(line) => line_events(map, line),
            None => Seq::empty(),
        }
    }
}

pub open spec fn slot_line(map: &MapData, i: int) -> Option<MapLinedef> {
    crate::map::slot(map.linedefs@, i)
}

/// All (sector, edge) records of the map.
pub open spec fn sector_events(map: &MapData) -> Seq<(SectorId, Edge)> {
    events_upto(map, map.linedefs@.len() as int)
}

/// Index of the first group keyed by `s`, searching from `k`.
pub open spec fn find_group(g: Seq<(SectorId, Seq<Edge>)>, s: SectorId, k: int) -> Option<int>
    decreases g.len() - k,
{
    if k < 0 || k >= g.len() {
        None
    } else if g[k].0 == s {
        Some(k)
    } else {
        find_group(g, s, k + 1)
    }
}

/// Add one record to a grouping: append the edge to the sector's group, or
/// open a new group at the end.
pub open spec fn add_event(g: Seq<(SectorId, Seq<Edge>)>, ev: (SectorId, Edge)) -> Seq<(SectorId, Seq<Edge>)> {
    match find_group(g, ev.0, 0) {
        Some(k) => g.update(k, (ev.0, g[k].1.push(ev.1))),
        None => g.push((ev.0, seq![ev.1])),
    }
}

/// Group records by sector, sectors in order of first appearance, edges in
/// record order.
pub open spec fn group_events(ev: Seq<(SectorId, Edge)>) -> Seq<(SectorId, Seq<Edge>)>
    decreases ev.len(),
{
    if ev.len() == 0 {
        Seq::empty()
    } else {
        add_event(group_events(ev.drop_last()), ev.last())
    }
}

/// The edges of sector `s` among the records, in record order.
pub open spec fn edges_of(ev: Seq<(SectorId, Edge)>, s: SectorId) -> Seq<Edge>
    decreases ev.len(),
{
    if ev.len() == 0 {
        Seq::empty()
    } else if ev.last().0 == s {
        edges_of(ev.drop_last(), s).push(ev.last().1)
    } else {
        edges_of(ev.drop_last(), s)
    }
}

// ---------------------------------------------------------------------------
// Walking loops.

/// The first edge at or after `i` that is unvisited and touches `v`, with the
/// vertex at its other end.
pub open spec fn first_incident_from(edges: Seq<Edge>, visited: Seq<bool>, v: VertexId, i: int) -> Option<(VertexId, int)>
    decreases edges.len() - i,
{
    if i < 0 || i >= edges.len() {
        None
    } else if !visited[i] && edges[i].a == v {
        Some((edges[i].b, i))
    } else if !visited[i] && edges[i].b == v {
        Some((edges[i].a, i))
    } else {
        first_incident_from(edges, visited, v, i + 1)
    }
}

/// The step a walk standing at `v` takes next: the lowest-indexed unvisited
/// edge touching `v`.
pub open spec fn next_step(edges: Seq<Edge>, visited: Seq<bool>, v: VertexId) -> Option<(VertexId, int)> {
    first_incident_from(edges, visited, v, 0)
}

/// Number of unvisited edges.
pub open spec fn count_unvisited(visited: Seq<bool>) -> nat
    decreases visited.len(),
{
    if visited.len() == 0 {
        0
    } else {
        count_unvisited(visited.drop_last()) + if visited.last() { 0nat } else { 1nat }
    }
}

/// Outcome of one walk: the closed loop, or the indices of the edges walked
/// before getting stuck.
pub enum Walk {
    Closed(Seq<VertexId>),
    Stuck(Seq<int>),
}

/// Follow edges from `cur` until the walk returns to `start` (closed) or no
/// unvisited edge continues it (stuck). Returns the outcome and the visited
/// marks afterwards.
pub open spec fn walk(
    edges: Seq<Edge>,
    visited: Seq<bool>,
    start: VertexId,
    cur: VertexId,
    path: Seq<VertexId>,
    walked: Seq<int>,
) -> (Walk, Seq<bool>)
    decreases count_unvisited(visited),
{
    if cur == start {
        (Walk::Closed(path.drop_last()), visited)
    } else {
        match next_step(edges, visited, cur) {
            None => (Walk::Stuck(walked), visited),
            Some((nv, ni)) => {
                if 0 <= ni < visited.len() && !visited[ni] {
                    proof {
                        lemma_mark_decreases(visited, ni);
                    }
                    walk(edges, visited.update(ni, true), start, nv, path.push(nv), walked.push(ni))
                } else {
                    (Walk::Stuck(walked), visited)
                }
            },
        }
    }
}

/// The walk that starts with edge `i`.
pub open spec fn walk_from(edges: Seq<Edge>, visited: Seq<bool>, i: int) -> (Walk, Seq<bool>) {
    walk(
        edges,
        visited.update(i, true),
        edges[i].a,
        edges[i].b,
        seq![edges[i].a, edges[i].b],
        seq![i],
    )
}

/// The edges at the given indices, as vertex pairs.
pub open spec fn orphan_pairs(edges: Seq<Edge>, idxs: Seq<int>) -> Seq<(VertexId, VertexId)> {
    idxs.map_values(|i: int| (edges[i].a, edges[i].b))
}

/// Walk from every edge not yet visited, in index order from `i`, collecting
/// closed loops and orphaned edges.
pub open spec fn walk_all(
    edges: Seq<Edge>,
    i: int,
    visited: Seq<bool>,
    loops: Seq<Seq<VertexId>>,
    orphans: Seq<(VertexId, VertexId)>,
) -> (Seq<Seq<VertexId>>, Seq<(VertexId, VertexId)>)
    decreases edges.len() - i,
{
    if i < 0 || i >= edges.len() || i >= visited.len() {
        (loops, orphans)
    } else if visited[i] {
        walk_all(edges, i + 1, visited, loops, orphans)
    } else {
        let (res, vis) = walk_from(edges, visited, i);
        match res {
            Walk::Closed(l) => walk_all(edges, i + 1, vis, loops.push(l), orphans),
            Walk::Stuck(w) => walk_all(edges, i + 1, vis, loops, orphans + orphan_pairs(edges, w)),
        }
    }
}

/// The loops and orphans that the walk finds in a sector's edges.
pub open spec fn sector_loops_spec(edges: Seq<Edge>) -> (Seq<Seq<VertexId>>, Seq<(VertexId, VertexId)>) {
    walk_all(edges, 0, Seq::new(edges.len(), |i: int| false), Seq::empty(), Seq::empty())
}

/// Marking an unvisited edge visited leaves one unvisited edge fewer.
pub proof fn lemma_mark_decreases(visited: Seq<bool>, i: int)
    requires
        0 <= i < visited.len(),
        !visited[i],
    ensures
        count_unvisited(visited.update(i, true)) + 1 == count_unvisited(visited),
    decreases visited.len(),
{
    let u = visited.update(i, true);
    if i == visited.len() - 1 {
        assert(u.drop_last() =~= visited.drop_last());
    } else {
        assert(u.drop_last() =~= visited.drop_last().update(i, true));
        lemma_mark_decreases(visited.drop_last(), i);
    }
}


pub open spec fn ints(v: Seq<usize>) -> Seq<int> {
    v.map_values(|i: usize| i as int)
}

/// The lowest-indexed unvisited edge touching `v`, with its far vertex.
pub(crate) fn find_next(edges: &Vec<Edge>, visited: &Vec<bool>, v: VertexId) -> (r: Option<(VertexId, usize)>)
    requires
        visited@.len() == edges@.len(),
    ensures
        match r {
            Some((nv, ni)) => next_step(edges@, visited@, v) == Some((nv, ni as int)),
            None => next_step(edges@, visited@, v) is None,
        },
{
    let mut i: usize = 0;
    while i < edges.len()
        invariant
            0 <= i <= edges@.len(),
            visited@.len() == edges@.len(),
            next_step(edges@, visited@, v) == first_incident_from(edges@, visited@, v, i as int),
        decreases edges@.len() - i,
    {
        if !visited[i] && edges[i].a == v {
            return Some((edges[i].b, i));
        }
        if !visited[i] && edges[i].b == v {
            return Some((edges[i].a, i));
        }
        i = i + 1;
    }
    None
}

/// The edges at the given indices, as vertex pairs.
fn orphan_edges(edges: &Vec<Edge>, idxs: &Vec<usize>) -> (r: Vec<(VertexId, VertexId)>)
    requires
        forall|j: int| 0 <= j < idxs@.len() ==> idxs@[j] < edges@.len(),
    ensures
        r@ == orphan_pairs(edges@, ints(idxs@)),
{
    let mut out: Vec<(VertexId, VertexId)> = Vec::new();
    let mut k: usize = 0;
    while k < idxs.len()
        invariant
            0 <= k <= idxs@.len(),
            forall|j: int| 0 <= j < idxs@.len() ==> idxs@[j] < edges@.len(),
            out@ =~= orphan_pairs(edges@, ints(idxs@.subrange(0, k as int))),
        decreases idxs@.len() - k,
    {
        let e = edges[idxs[k]];
        out.push((e.a, e.b));
        k = k + 1;
        assert(idxs@.subrange(0, k as int) =~= idxs@.subrange(0, k - 1).push(idxs@[k - 1]));
    }
    assert(idxs@.subrange(0, k as int) =~= idxs@);
    out
}

/// Follow edges from edge `start_idx` until the walk returns to its first
/// vertex, marking edges visited. On success returns the closed loop; on
/// failure returns the walked (still visited) edges as orphans.
fn walk_one_loop(edges: &Vec<Edge>, marks: Vec<bool>, start_idx: usize) -> (r: (Result<Vec<VertexId>, Vec<(VertexId, VertexId)>>, Vec<bool>))
    requires
        start_idx < edges@.len(),
        marks@.len() == edges@.len(),
    ensures
        r.1@.len() == edges@.len(),
        r.1@ == walk_from(edges@, marks@, start_idx as int).1,
        match walk_from(edges@, marks@, start_idx as int).0 {
            Walk::Closed(l) => r.0 matches Ok(p) && p@ == l,
            Walk::Stuck(w) => r.0 matches Err(o) && o@ == orphan_pairs(edges@, w),
        },
{
    let ghost target = walk_from(edges@, marks@, start_idx as int);
    let mut visited = marks;
    let start_edge = edges[start_idx];
    let start_vertex = start_edge.a;
    let mut current = start_edge.b;
    let mut path: Vec<VertexId> = Vec::new();
    path.push(start_vertex);
    path.push(current);
    visited[start_idx] = true;
    let mut walked: Vec<usize> = Vec::new();
    walked.push(start_idx);
    assert(path@ =~= seq![start_vertex, current]);
    assert(ints(walked@) =~= seq![start_idx as int]);
    loop
        invariant
            visited@.len() == edges@.len(),
            path@.len() >= 1,
            forall|j: int| 0 <= j < walked@.len() ==> walked@[j] < edges@.len(),
            target == walk_from(edges@, marks@, start_idx as int),
            walk(edges@, visited@, start_vertex, current, path@, ints(walked@)) == target,
        decreases count_unvisited(visited@),
    {
        if current == start_vertex {
            path.pop();
            return (Ok(path), visited);
        }
        match find_next(edges, &visited, current) {
            None => {
                return (Err(orphan_edges(edges, &walked)), visited);
            },
            Some((next_vertex, next_idx)) => {
                proof {
                    lemma_first_incident_unvisited(edges@, visited@, current, 0);
                    lemma_mark_decreases(visited@, next_idx as int);
                }
                let ghost old_vis = visited@;
                let ghost old_path = path@;
                let ghost old_walked = ints(walked@);
                assert(walk(edges@, old_vis, start_vertex, current, old_path, old_walked) == walk(
                    edges@,
                    old_vis.update(next_idx as int, true),
                    start_vertex,
                    next_vertex,
                    old_path.push(next_vertex),
                    old_walked.push(next_idx as int),
                ));
                visited[next_idx] = true;
                walked.push(next_idx);
                path.push(next_vertex);
                current = next_vertex;
                assert(ints(walked@) =~= ints(walked@.drop_last()).push(next_idx as int));
                assert(visited@ == old_vis.update(next_idx as int, true));
                assert(path@ == old_path.push(next_vertex));
                assert(ints(walked@) == old_walked.push(next_idx as int));
            },
        }
    }
}

/// The edge that the search from index `i` finds, if any, is an unvisited
/// edge at or after `i`.
pub proof fn lemma_first_incident_unvisited(edges: Seq<Edge>, visited: Seq<bool>, v: VertexId, i: int)
    requires
        visited.len() == edges.len(),
    ensures
        match first_incident_from(edges, visited, v, i) {
            Some((nv, ni)) => 0 <= ni < edges.len() && !visited[ni] && i <= ni,
            None => true,
        },
    decreases edges.len() - i,
{
    if i < 0 || i >= edges.len() {
    } else if !visited[i] && edges[i].a == v {
    } else if !visited[i] && edges[i].b == v {
    } else {
        lemma_first_incident_unvisited(edges, visited, v, i + 1);
    }
}

/// Split one sector's edges into closed loops and orphaned edges.
pub fn walk_loops(edges: &Vec<Edge>) -> (r: SectorLoops)
    ensures
        (r.loops_view(), r.orphan_edges@) == sector_loops_spec(edges@),
        loops_of_edges(edges@, r.loops_view(), r.orphan_edges@),
{
    proof {
        lemma_sector_loops_laws(edges@);
    }
    let n = edges.len();
    let mut loops: Vec<Vec<VertexId>> = Vec::new();
    let mut orphans: Vec<(VertexId, VertexId)> = Vec::new();
    if n == 0 {
        assert(loops@.map_values(|l: Vec<VertexId>| l@) =~= Seq::<Seq<VertexId>>::empty());
        return SectorLoops { loops, orphan_edges: orphans };
    }
    let mut visited: Vec<bool> = vec![false; n];
    assert(visited@ =~= Seq::new(n as nat, |i: int| false));
    assert(loops@.map_values(|l: Vec<VertexId>| l@) =~= Seq::<Seq<VertexId>>::empty());
    assert(orphans@ =~= Seq::<(VertexId, VertexId)>::empty());
    let mut start_idx: usize = 0;
    while start_idx < n
        invariant
            n == edges@.len(),
            0 <= start_idx <= n,
            visited@.len() == n,
            walk_all(edges@, start_idx as int, visited@, loops@.map_values(|l: Vec<VertexId>| l@), orphans@)
                == sector_loops_spec(edges@),
        decreases n - start_idx,
    {
        if !visited[start_idx] {
            let ghost lv = loops@.map_values(|l: Vec<VertexId>| l@);
            let (res, vis) = walk_one_loop(edges, visited, start_idx);
            visited = vis;
            match res {
                Ok(l) => {
                    loops.push(l);
                    assert(loops@.map_values(|l: Vec<VertexId>| l@) =~= lv.push(l@));
                },
                Err(mut es) => {
                    orphans.append(&mut es);
                },
            }
        }
        start_idx = start_idx + 1;
    }
    SectorLoops { loops, orphan_edges: orphans }
}


/// The grouping held in two parallel vectors, as one sequence of pairs.
pub open spec fn groups_view(secs: Seq<SectorId>, lists: Seq<Vec<Edge>>) -> Seq<(SectorId, Seq<Edge>)> {
    Seq::new(secs.len(), |k: int| (secs[k], lists[k]@))
}

/// Append `e` to the group of sector `s`, opening the group when needed.
fn add_edge(secs: &mut Vec<SectorId>, lists: &mut Vec<Vec<Edge>>, s: SectorId, e: Edge)
    requires
        old(secs)@.len() == old(lists)@.len(),
    ensures
        final(secs)@.len() == final(lists)@.len(),
        groups_view(final(secs)@, final(lists)@) == add_event(groups_view(old(secs)@, old(lists)@), (s, e)),
{
    let ghost g = groups_view(secs@, lists@);
    let n = secs.len();
    let mut k: usize = 0;
    while k < n
        invariant
            n == secs@.len(),
            n == lists@.len(),
            0 <= k <= n,
            g == groups_view(secs@, lists@),
            g == groups_view(old(secs)@, old(lists)@),
            find_group(g, s, 0) == find_group(g, s, k as int),
        decreases n - k,
    {
        if secs[k] == s {
            assert(find_group(g, s, k as int) == Some(k as int));
            lists[k].push(e);
            assert(groups_view(secs@, lists@) =~= g.update(k as int, (s, g[k as int].1.push(e))));
            return;
        }
        k = k + 1;
    }
    assert(find_group(g, s, n as int) is None);
    secs.push(s);
    let mut fresh: Vec<Edge> = Vec::new();
    fresh.push(e);
    lists.push(fresh);
    assert(groups_view(secs@, lists@) =~= g.push((s, seq![e])));
}

/// Line `i` exists and one of its sides faces sector `s`.
pub open spec fn side_faces(map: &MapData, i: int, s: SectorId) -> bool {
    &&& 0 <= i < map.linedefs@.len()
    &&& map.linedefs@[i] is Some
    &&& (map.side_sector(map.linedefs@[i]->0.right) == Some(s) || map.side_sector(map.linedefs@[i]->0.left) == Some(s))
}

/// The edge of line `i`, from its first vertex to its second.
pub open spec fn line_edge(map: &MapData, i: int) -> Edge {
    Edge { a: map.linedefs@[i]->0.v1, b: map.linedefs@[i]->0.v2 }
}

/// The record comes from one of the first `k` lines, one of whose sides
/// faces the record's sector.
pub open spec fn from_line_before(map: &MapData, k: int, x: (SectorId, Edge)) -> bool {
    exists|i: int| 0 <= i < k && #[trigger] side_faces(map, i, x.0) && x.1 == line_edge(map, i)
}

proof fn lemma_events_cover(map: &MapData, k: int)
    requires
        0 <= k <= map.linedefs@.len(),
    ensures
        forall|i: int|
            0 <= i < k && map.linedefs@[i] is Some && map.side_sector(map.linedefs@[i]->0.right) is Some ==> #[trigger] events_upto(
                map,
                k,
            ).contains((map.side_sector(map.linedefs@[i]->0.right)->0, line_edge(map, i))),
        forall|i: int|
            0 <= i < k && map.linedefs@[i] is Some && map.side_sector(map.linedefs@[i]->0.left) is Some ==> #[trigger] events_upto(
                map,
                k,
            ).contains((map.side_sector(map.linedefs@[i]->0.left)->0, line_edge(map, i))),
        forall|j: int| 0 <= j < events_upto(map, k).len() ==> from_line_before(map, k, #[trigger] events_upto(map, k)[j]),
    decreases k,
{
    if k > 0 {
        lemma_events_cover(map, k - 1);
        let prev = events_upto(map, k - 1);
        let cur = events_upto(map, k);
        let add = match slot_line(map, k - 1) {
            Some(line) => line_events(map, line),
            None => Seq::empty(),
        };
        assert(cur == prev + add);
        assert forall|j: int| 0 <= j < prev.len() implies cur[j] == prev[j] by {}
        assert forall|i: int|
            0 <= i < k && map.linedefs@[i] is Some && map.side_sector(map.linedefs@[i]->0.right) is Some implies #[trigger] events_upto(
                map,
                k,
            ).contains((map.side_sector(map.linedefs@[i]->0.right)->0, line_edge(map, i))) by {
            let x = (map.side_sector(map.linedefs@[i]->0.right)->0, line_edge(map, i));
            if i < k - 1 {
                assert(prev.contains(x));
                let j = choose|j: int| 0 <= j < prev.len() && prev[j] == x;
                assert(cur[j] == prev[j]);
                assert(cur[j] == x);
            } else {
                assert(cur[prev.len() as int] == x);
            }
        }
        assert forall|i: int|
            0 <= i < k && map.linedefs@[i] is Some && map.side_sector(map.linedefs@[i]->0.left) is Some implies #[trigger] events_upto(
                map,
                k,
            ).contains((map.side_sector(map.linedefs@[i]->0.left)->0, line_edge(map, i))) by {
            let x = (map.side_sector(map.linedefs@[i]->0.left)->0, line_edge(map, i));
            if i < k - 1 {
                assert(prev.contains(x));
                let j = choose|j: int| 0 <= j < prev.len() && prev[j] == x;
                assert(cur[j] == prev[j]);
                assert(cur[j] == x);
            } else {
                assert(cur[cur.len() - 1] == x);
            }
        }
        assert forall|j: int| 0 <= j < cur.len() implies from_line_before(map, k, #[trigger] cur[j]) by {
            if j < prev.len() {
                assert(cur[j] == prev[j]);
                assert(from_line_before(map, k - 1, prev[j]));
                let i = choose|i: int| 0 <= i < k - 1 && #[trigger] side_faces(map, i, prev[j].0) && prev[j].1 == line_edge(map, i);
                assert(0 <= i < k && side_faces(map, i, cur[j].0) && cur[j].1 == line_edge(map, i));
            } else {
                let line = slot_line(map, k - 1)->0;
                assert(map.linedefs@[k - 1] == Some(line));
                assert(cur[j] == add[j - prev.len()]);
                assert(line_edge(map, k - 1) == Edge { a: line.v1, b: line.v2 });
                assert(side_faces(map, k - 1, cur[j].0) && cur[j].1 == line_edge(map, k - 1));
            }
        }
    }
}

proof fn lemma_edges_of_contains(ev: Seq<(SectorId, Edge)>, s: SectorId, e: Edge)
    ensures
        ev.contains((s, e)) ==> edges_of(ev, s).contains(e),
        forall|j: int| 0 <= j < edges_of(ev, s).len() ==> ev.contains((s, #[trigger] edges_of(ev, s)[j])),
    decreases ev.len(),
{
    if ev.len() > 0 {
        let t = ev.drop_last();
        lemma_edges_of_contains(t, s, e);
        let pe = edges_of(t, s);
        let ce = edges_of(ev, s);
        if ev.contains((s, e)) {
            let j = choose|j: int| 0 <= j < ev.len() && ev[j] == (s, e);
            if j < t.len() {
                assert(t[j] == (s, e));
                let m = choose|m: int| 0 <= m < pe.len() && pe[m] == e;
                assert(ce[m] == e);
            } else {
                assert(ce[ce.len() - 1] == e);
            }
        }
        assert forall|j: int| 0 <= j < ce.len() implies ev.contains((s, #[trigger] ce[j])) by {
            if j < pe.len() {
                assert(ce[j] == pe[j]);
                let m = choose|m: int| 0 <= m < t.len() && t[m] == (s, pe[j]);
                assert(ev[m] == t[m]);
            } else {
                assert(ev[ev.len() - 1] == (s, ce[j]));
            }
        }
    }
}

/// Every sector's linedef edges, grouped by the sector of each side, sectors
/// in order of first appearance.
/// Every side of a line that faces a sector puts the line's edge in that
/// sector's group, and every edge of a group comes from such a side.
pub fn collect_sector_edges(map: &MapData) -> (r: (Vec<SectorId>, Vec<Vec<Edge>>))
    ensures
        r.0@.len() == r.1@.len(),
        groups_view(r.0@, r.1@) == group_events(sector_events(map)),
        forall|i: int, s: SectorId|
            #[trigger] side_faces(map, i, s) ==> exists|k: int|
                0 <= k < r.0@.len() && r.0@[k] == s && (#[trigger] r.1@[k])@.contains(line_edge(map, i)),
        forall|k: int, j: int|
            0 <= k < r.1@.len() && 0 <= j < r.1@[k]@.len() ==> from_line_before(
                map,
                map.linedefs@.len() as int,
                (r.0@[k], #[trigger] r.1@[k]@[j]),
            ),
{
    let mut secs: Vec<SectorId> = Vec::new();
    let mut lists: Vec<Vec<Edge>> = Vec::new();
    assert(groups_view(secs@, lists@) =~= group_events(events_upto(map, 0)));
    let mut j: usize = 0;
    while j < map.linedefs.len()
        invariant
            0 <= j <= map.linedefs@.len(),
            secs@.len() == lists@.len(),
            groups_view(secs@, lists@) == group_events(events_upto(map, j as int)),
        decreases map.linedefs@.len() - j,
    {
        let ghost before = events_upto(map, j as int);
        if let Some(line) = map.linedefs[j] {
            let e = Edge { a: line.v1, b: line.v2 };
            let ghost mid = before;
            if let Some(s) = map.side_sector_of(line.right) {
                add_edge(&mut secs, &mut lists, s, e);
                proof {
                    lemma_group_push(mid, (s, e));
                    mid = mid.push((s, e));
                }
            }
            if let Some(s) = map.side_sector_of(line.left) {
                add_edge(&mut secs, &mut lists, s, e);
                proof {
                    lemma_group_push(mid, (s, e));
                    mid = mid.push((s, e));
                }
            }
            assert(mid =~= events_upto(map, j + 1));
        } else {
            assert(events_upto(map, j + 1) =~= before);
        }
        j = j + 1;
    }
    proof {
        let ev = sector_events(map);
        let g = group_events(ev);
        lemma_events_cover(map, map.linedefs@.len() as int);
        lemma_groups_are_sector_edges(ev);
        assert forall|i: int, s: SectorId| #[trigger] side_faces(map, i, s) implies exists|k: int|
            0 <= k < secs@.len() && secs@[k] == s && (#[trigger] lists@[k])@.contains(line_edge(map, i)) by {
            let e = line_edge(map, i);
            let evu = events_upto(map, map.linedefs@.len() as int);
            assert(ev == evu);
            if map.side_sector(map.linedefs@[i]->0.right) == Some(s) {
                assert(evu.contains((map.side_sector(map.linedefs@[i]->0.right)->0, line_edge(map, i))));
            } else {
                assert(evu.contains((map.side_sector(map.linedefs@[i]->0.left)->0, line_edge(map, i))));
            }
            assert(ev.contains((s, e)));
            lemma_edges_of_contains(ev, s, e);
            assert(edges_of(ev, s).len() > 0);
            let k = choose|k: int| 0 <= k < g.len() && g[k].0 == s;
            assert(g[k] == (secs@[k], lists@[k]@));
            assert(g[k].1 == edges_of(ev, g[k].0));
        }
        assert forall|k: int, j: int| 0 <= k < lists@.len() && 0 <= j < lists@[k]@.len() implies from_line_before(
            map,
            map.linedefs@.len() as int,
            (secs@[k], #[trigger] lists@[k]@[j]),
        ) by {
            assert(g[k] == (secs@[k], lists@[k]@));
            assert(g[k].1 == edges_of(ev, g[k].0));
            lemma_edges_of_contains(ev, secs@[k], lists@[k]@[j]);
            assert(ev.contains((secs@[k], lists@[k]@[j])));
            let evu = events_upto(map, map.linedefs@.len() as int);
            assert(ev == evu);
            let m = choose|m: int| 0 <= m < ev.len() && ev[m] == (secs@[k], lists@[k]@[j]);
            assert(evu[m] == (secs@[k], lists@[k]@[j]));
            assert(from_line_before(map, map.linedefs@.len() as int, evu[m]));
            let i = choose|i: int|
                0 <= i < map.linedefs@.len() && #[trigger] side_faces(map, i, evu[m].0) && evu[m].1 == line_edge(map, i);
            assert(0 <= i < map.linedefs@.len() && side_faces(map, i, secs@[k]) && lists@[k]@[j] == line_edge(map, i));
        }
    }
    (secs, lists)
}

proof fn lemma_group_push(ev: Seq<(SectorId, Edge)>, x: (SectorId, Edge))
    ensures
        group_events(ev.push(x)) == add_event(group_events(ev), x),
{
    assert(ev.push(x).drop_last() =~= ev);
}

/// Ids of the occupied sector slots among the first `n` that own no edge
/// (no group of `g`), in slot order.
pub open spec fn edgeless_upto(map: &MapData, g: Seq<(SectorId, Seq<Edge>)>, n: int) -> Seq<SectorId>
    decreases n,
{
    if n <= 0 {
        Seq::empty()
    } else {
        let prev = edgeless_upto(map, g, n - 1);
        if map.sectors@[n - 1] is Some && find_group(g, SectorId((n - 1) as usize), 0) is None {
            prev.push(SectorId((n - 1) as usize))
        } else {
            prev
        }
    }
}

/// The sectors of the map that own no edge, in slot order.
pub open spec fn edgeless_sectors(map: &MapData) -> Seq<SectorId> {
    edgeless_upto(map, group_events(sector_events(map)), map.sectors@.len() as int)
}

proof fn lemma_edgeless_distinct(map: &MapData, g: Seq<(SectorId, Seq<Edge>)>, n: int)
    requires
        0 <= n <= map.sectors@.len(),
        n <= usize::MAX,
    ensures
        forall|a: int, b: int|
            0 <= a < b < edgeless_upto(map, g, n).len() ==> (#[trigger] edgeless_upto(map, g, n)[a]).0 < (
            #[trigger] edgeless_upto(map, g, n)[b]).0,
        forall|a: int| 0 <= a < edgeless_upto(map, g, n).len() ==> (#[trigger] edgeless_upto(map, g, n)[a]).0 < n,
        forall|a: int|
            0 <= a < edgeless_upto(map, g, n).len() ==> find_group(g, #[trigger] edgeless_upto(map, g, n)[a], 0) is None,
    decreases n,
{
    if n > 0 {
        lemma_edgeless_distinct(map, g, n - 1);
        let prev = edgeless_upto(map, g, n - 1);
        let cur = edgeless_upto(map, g, n);
        assert forall|a: int| 0 <= a < prev.len() implies cur[a] == prev[a] by {}
        assert forall|a: int, b: int| 0 <= a < b < cur.len() implies (#[trigger] cur[a]).0 < (#[trigger] cur[b]).0 by {
            if b >= prev.len() {
                assert(cur[a] == prev[a]);
                assert(cur[b].0 == (n - 1) as usize);
            } else {
                assert(cur[a] == prev[a] && cur[b] == prev[b]);
            }
        }
    }
}

/// Extract the loops of every sector of the map: first the sectors that own
/// edges, in order of first appearance, each with the loops and orphan edges
/// its edges give; then the sectors without edges, in slot order, each with
/// no loops and no orphans.
/// Each sector's loops are closed walks over its edges, and every one of its
/// edges is used exactly once, by a step of one loop or as an orphan.
/// No sector has two entries. Every side of a line that faces a sector puts
/// the line's edge among that sector's loops or orphans.
pub fn extract_sector_loops(map: &MapData) -> (r: Vec<(SectorId, SectorLoops)>)
    ensures
        r@.len() == group_events(sector_events(map)).len() + edgeless_sectors(map).len(),
        forall|k: int|
            0 <= k < group_events(sector_events(map)).len() ==> {
                let g = group_events(sector_events(map))[k];
                &&& (#[trigger] r@[k]).0 == g.0
                &&& (r@[k].1.loops_view(), r@[k].1.orphan_edges@) == sector_loops_spec(g.1)
            },
        forall|k: int|
            0 <= k < edgeless_sectors(map).len() ==> {
                let e = #[trigger] r@[group_events(sector_events(map)).len() + k];
                &&& e.0 == edgeless_sectors(map)[k]
                &&& e.1.loops@.len() == 0
                &&& e.1.orphan_edges@.len() == 0
            },
        forall|i: int|
            0 <= i < map.sectors@.len() && map.sectors@[i] is Some ==> exists|k: int|
                0 <= k < r@.len() && (#[trigger] r@[k]).0 == SectorId(i as usize),
        forall|a: int, b: int| 0 <= a < b < r@.len() ==> (#[trigger] r@[a]).0 != (#[trigger] r@[b]).0,
        forall|i: int, s: SectorId|
            #[trigger] side_faces(map, i, s) ==> exists|k: int|
                0 <= k < r@.len() && (#[trigger] r@[k]).0 == s && edge_in_loops(
                    r@[k].1.loops_view(),
                    r@[k].1.orphan_edges@,
                    line_edge(map, i),
                ),
        forall|k: int|
            0 <= k < group_events(sector_events(map)).len() ==> {
                let edges = edges_of(sector_events(map), (#[trigger] r@[k]).0);
                &&& edges.len() > 0
                &&& loops_of_edges(edges, r@[k].1.loops_view(), r@[k].1.orphan_edges@)
            },
{
    let (secs, lists) = collect_sector_edges(map);
    let ghost g = groups_view(secs@, lists@);
    let mut out: Vec<(SectorId, SectorLoops)> = Vec::new();
    let mut k: usize = 0;
    while k < secs.len()
        invariant
            secs@.len() == lists@.len(),
            g == groups_view(secs@, lists@),
            g == group_events(sector_events(map)),
            0 <= k <= secs@.len(),
            out@.len() == k,
            forall|i: int|
                0 <= i < k ==> {
                    &&& (#[trigger] out@[i]).0 == g[i].0
                    &&& (out@[i].1.loops_view(), out@[i].1.orphan_edges@) == sector_loops_spec(g[i].1)
                },
        decreases secs@.len() - k,
    {
        let l = walk_loops(&lists[k]);
        out.push((secs[k], l));
        k = k + 1;
    }
    let ng = secs.len();
    let mut i: usize = 0;
    while i < map.sectors.len()
        invariant
            secs@.len() == lists@.len(),
            g == groups_view(secs@, lists@),
            g == group_events(sector_events(map)),
            ng == g.len(),
            0 <= i <= map.sectors@.len(),
            out@.len() == ng + edgeless_upto(map, g, i as int).len(),
            forall|j: int|
                0 <= j < ng ==> {
                    &&& (#[trigger] out@[j]).0 == g[j].0
                    &&& (out@[j].1.loops_view(), out@[j].1.orphan_edges@) == sector_loops_spec(g[j].1)
                },
            forall|j: int|
                0 <= j < edgeless_upto(map, g, i as int).len() ==> {
                    let e = #[trigger] out@[ng + j];
                    &&& e.0 == edgeless_upto(map, g, i as int)[j]
                    &&& e.1.loops@.len() == 0
                    &&& e.1.orphan_edges@.len() == 0
                },
            forall|t: int|
                0 <= t < i && map.sectors@[t] is Some ==> exists|k: int|
                    0 <= k < out@.len() && (#[trigger] out@[k]).0 == SectorId(t as usize),
        decreases map.sectors@.len() - i,
    {
        let ghost before = out@;
        let sid = SectorId(i);
        if map.sectors[i].is_some() {
            let mut found = false;
            let mut k: usize = 0;
            while k < ng
                invariant
                    ng == secs@.len(),
                    g == groups_view(secs@, lists@),
                    0 <= k <= ng,
                    find_group(g, sid, 0) == if found { find_group(g, sid, 0) } else { find_group(g, sid, k as int) },
                    found ==> exists|j: int| 0 <= j < ng && g[j].0 == sid,
                decreases ng - k,
            {
                if secs[k] == sid {
                    found = true;
                    assert(g[k as int].0 == sid);
                }
                k = k + 1;
            }
            if found {
                proof {
                    let j = choose|j: int| 0 <= j < ng && g[j].0 == sid;
                    assert(before[j].0 == sid);
                    lemma_find_group(g, sid, 0);
                    assert(find_group(g, sid, 0) is Some) by {
                        if find_group(g, sid, 0) is None {
                            assert(g[j].0 != sid);
                        }
                    }
                    assert(edgeless_upto(map, g, i + 1) == edgeless_upto(map, g, i as int));
                }
            } else {
                let empty = SectorLoops { loops: Vec::new(), orphan_edges: Vec::new() };
                out.push((sid, empty));
                proof {
                    assert(find_group(g, sid, 0) is None);
                    let ep = edgeless_upto(map, g, i as int);
                    assert(edgeless_upto(map, g, i + 1) == ep.push(sid));
                    assert(out@[ng + ep.len()].0 == sid);
                    assert forall|j: int| 0 <= j < ng implies (#[trigger] out@[j]).0 == g[j].0
                        && (out@[j].1.loops_view(), out@[j].1.orphan_edges@) == sector_loops_spec(g[j].1) by {
                        assert(out@[j] == before[j]);
                    }
                    assert forall|j: int| 0 <= j < edgeless_upto(map, g, i + 1).len() implies {
                        let e = #[trigger] out@[ng + j];
                        &&& e.0 == edgeless_upto(map, g, i + 1)[j]
                        &&& e.1.loops@.len() == 0
                        &&& e.1.orphan_edges@.len() == 0
                    } by {
                        if j < ep.len() {
                            assert(out@[ng + j] == before[ng + j]);
                        }
                    }
                    assert forall|t: int| 0 <= t < i + 1 && map.sectors@[t] is Some implies exists|k: int|
                        0 <= k < out@.len() && (#[trigger] out@[k]).0 == SectorId(t as usize) by {
                        if t < i {
                            let k = choose|k: int| 0 <= k < before.len() && (#[trigger] before[k]).0 == SectorId(t as usize);
                            assert(out@[k] == before[k]);
                        } else {
                            assert(out@[ng + ep.len()].0 == SectorId(t as usize));
                        }
                    }
                }
            }
        } else {
            assert(edgeless_upto(map, g, i + 1) == edgeless_upto(map, g, i as int));
        }
        i = i + 1;
    }
    proof {
        let ev = sector_events(map);
        lemma_groups_are_sector_edges(ev);
        assert forall|k: int| 0 <= k < ng implies {
            let edges = edges_of(ev, (#[trigger] out@[k]).0);
            &&& edges.len() > 0
            &&& loops_of_edges(edges, out@[k].1.loops_view(), out@[k].1.orphan_edges@)
        } by {
            assert(g[k].1 == edges_of(ev, g[k].0));
            assert(g[k].1.len() > 0);
            lemma_sector_loops_laws(g[k].1);
        }
        lemma_events_cover(map, map.linedefs@.len() as int);
        assert forall|li: int, s: SectorId| #[trigger] side_faces(map, li, s) implies exists|k: int|
            0 <= k < out@.len() && (#[trigger] out@[k]).0 == s && edge_in_loops(
                out@[k].1.loops_view(),
                out@[k].1.orphan_edges@,
                line_edge(map, li),
            ) by {
            let le = line_edge(map, li);
            let evu = events_upto(map, map.linedefs@.len() as int);
            assert(ev == evu);
            if map.side_sector(map.linedefs@[li]->0.right) == Some(s) {
                assert(evu.contains((map.side_sector(map.linedefs@[li]->0.right)->0, line_edge(map, li))));
            } else {
                assert(evu.contains((map.side_sector(map.linedefs@[li]->0.left)->0, line_edge(map, li))));
            }
            lemma_edges_of_contains(ev, s, le);
            let es = edges_of(ev, s);
            let x = choose|x: int| 0 <= x < es.len() && es[x] == le;
            let k = choose|k: int| 0 <= k < g.len() && g[k].0 == s;
            assert(out@[k].0 == g[k].0);
            assert(loops_of_edges(edges_of(ev, out@[k].0), out@[k].1.loops_view(), out@[k].1.orphan_edges@));
            lemma_edge_in_loops(es, out@[k].1.loops_view(), out@[k].1.orphan_edges@, x);
        }
        let e = edgeless_upto(map, g, i as int);
        lemma_edgeless_distinct(map, g, i as int);
        assert forall|a: int, b: int| 0 <= a < b < out@.len() implies (#[trigger] out@[a]).0 != (#[trigger] out@[b]).0 by {
            if b < ng {
                assert(g[a].0 != g[b].0);
            } else if a < ng {
                let jb = b - ng;
                assert(out@[ng + jb].0 == e[jb]);
                assert(find_group(g, e[b - ng], 0) is None);
                lemma_find_group(g, e[b - ng], 0);
                assert(g[a].0 != e[b - ng]);
            } else {
                let ja = a - ng;
                let jb = b - ng;
                assert(out@[ng + ja].0 == e[ja] && out@[ng + jb].0 == e[jb]);
                assert(e[a - ng].0 < e[b - ng].0);
            }
        }
    }
    out
}

// ---------------------------------------------------------------------------
// Every edge is accounted for exactly once.

/// Total number of vertices over all loops.
pub open spec fn total_len(loops: Seq<Seq<VertexId>>) -> nat
    decreases loops.len(),
{
    if loops.len() == 0 {
        0
    } else {
        total_len(loops.drop_last()) + loops.last().len()
    }
}

pub(crate) proof fn lemma_count_all_visited(visited: Seq<bool>)
    requires
        forall|j: int| 0 <= j < visited.len() ==> visited[j],
    ensures
        count_unvisited(visited) == 0,
    decreases visited.len(),
{
    if visited.len() > 0 {
        lemma_count_all_visited(visited.drop_last());
    }
}

proof fn lemma_walk_accounts(
    edges: Seq<Edge>,
    visited: Seq<bool>,
    start: VertexId,
    cur: VertexId,
    path: Seq<VertexId>,
    walked: Seq<int>,
)
    requires
        visited.len() == edges.len(),
        path.len() == walked.len() + 1,
    ensures
        ({
            let (w, vis) = walk(edges, visited, start, cur, path, walked);
            &&& vis.len() == visited.len()
            &&& forall|j: int| 0 <= j < visited.len() && visited[j] ==> vis[j]
            &&& match w {
                Walk::Closed(l) => count_unvisited(vis) + l.len() == count_unvisited(visited) + walked.len(),
                Walk::Stuck(ws) => count_unvisited(vis) + ws.len() == count_unvisited(visited) + walked.len(),
            }
        }),
    decreases count_unvisited(visited),
{
    if cur == start {
    } else {
        match next_step(edges, visited, cur) {
            None => {},
            Some((nv, ni)) => {
                if 0 <= ni < visited.len() && !visited[ni] {
                    lemma_mark_decreases(visited, ni);
                    lemma_walk_accounts(
                        edges,
                        visited.update(ni, true),
                        start,
                        nv,
                        path.push(nv),
                        walked.push(ni),
                    );
                }
            },
        }
    }
}

proof fn lemma_walk_all_accounts(
    edges: Seq<Edge>,
    i: int,
    visited: Seq<bool>,
    loops: Seq<Seq<VertexId>>,
    orphans: Seq<(VertexId, VertexId)>,
)
    requires
        0 <= i,
        visited.len() == edges.len(),
        forall|j: int| 0 <= j < i && j < visited.len() ==> visited[j],
    ensures
        ({
            let (lo, or) = walk_all(edges, i, visited, loops, orphans);
            total_len(lo) + or.len() == total_len(loops) + orphans.len() + count_unvisited(visited)
        }),
    decreases edges.len() - i,
{
    if i >= edges.len() {
        lemma_count_all_visited(visited);
    } else if visited[i] {
        lemma_walk_all_accounts(edges, i + 1, visited, loops, orphans);
    } else {
        let vis1 = visited.update(i, true);
        lemma_mark_decreases(visited, i);
        lemma_walk_accounts(edges, vis1, edges[i].a, edges[i].b, seq![edges[i].a, edges[i].b], seq![i]);
        let (res, vis) = walk_from(edges, visited, i);
        match res {
            Walk::Closed(l) => {
                assert(loops.push(l).drop_last() =~= loops);
                lemma_walk_all_accounts(edges, i + 1, vis, loops.push(l), orphans);
            },
            Walk::Stuck(w) => {
                lemma_walk_all_accounts(edges, i + 1, vis, loops, orphans + orphan_pairs(edges, w));
            },
        }
    }
}

/// Counting vertices: the loops hold as many vertices in total as the
/// sector has edges, less the orphaned ones.
pub proof fn lemma_every_edge_accounted(edges: Seq<Edge>)
    ensures
        total_len(sector_loops_spec(edges).0) + sector_loops_spec(edges).1.len() == edges.len(),
{
    let v = Seq::new(edges.len(), |i: int| false);
    lemma_walk_all_accounts(edges, 0, v, Seq::empty(), Seq::empty());
    lemma_count_none_visited(v);
}

// ---------------------------------------------------------------------------
// Every loop is closed.

/// Some edge joins `u` and `v`, in either direction.
pub open spec fn joined(edges: Seq<Edge>, u: VertexId, v: VertexId) -> bool {
    exists|i: int|
        0 <= i < edges.len() && ((#[trigger] edges[i].a == u && edges[i].b == v) || (edges[i].a == v && edges[i].b == u))
}

/// `l` is a closed walk over the edges: consecutive vertices, and the last
/// with the first, are joined by an edge.
pub open spec fn closed_walk(edges: Seq<Edge>, l: Seq<VertexId>) -> bool {
    &&& l.len() > 0
    &&& forall|j: int| 0 <= j < l.len() - 1 ==> joined(edges, #[trigger] l[j], l[j + 1])
    &&& joined(edges, l.last(), l[0])
}

proof fn lemma_first_incident_joins(edges: Seq<Edge>, visited: Seq<bool>, v: VertexId, i: int)
    ensures
        first_incident_from(edges, visited, v, i) matches Some((nv, ni)) ==> 0 <= ni < edges.len() && ((edges[ni].a == v
            && edges[ni].b == nv) || (edges[ni].b == v && edges[ni].a == nv)),
    decreases edges.len() - i,
{
    if 0 <= i < edges.len() {
        lemma_first_incident_joins(edges, visited, v, i + 1);
    }
}

proof fn lemma_walk_closed(
    edges: Seq<Edge>,
    visited: Seq<bool>,
    start: VertexId,
    cur: VertexId,
    path: Seq<VertexId>,
    walked: Seq<int>,
)
    requires
        path.len() >= 2,
        path[0] == start,
        path.last() == cur,
        forall|j: int| 0 <= j < path.len() - 1 ==> joined(edges, #[trigger] path[j], path[j + 1]),
    ensures
        walk(edges, visited, start, cur, path, walked).0 matches Walk::Closed(l) ==> closed_walk(edges, l),
    decreases count_unvisited(visited),
{
    if cur == start {
        let l = path.drop_last();
        assert forall|j: int| 0 <= j < l.len() - 1 implies joined(edges, #[trigger] l[j], l[j + 1]) by {
            assert(l[j] == path[j] && l[j + 1] == path[j + 1]);
        }
        assert(joined(edges, path[path.len() - 2], path[path.len() - 1]));
    } else {
        match next_step(edges, visited, cur) {
            None => {},
            Some((nv, ni)) => {
                if 0 <= ni < visited.len() && !visited[ni] {
                    lemma_mark_decreases(visited, ni);
                    lemma_first_incident_joins(edges, visited, cur, 0);
                    let p2 = path.push(nv);
                    assert forall|j: int| 0 <= j < p2.len() - 1 implies joined(edges, #[trigger] p2[j], p2[j + 1]) by {
                        if j < path.len() - 1 {
                            assert(p2[j] == path[j] && p2[j + 1] == path[j + 1]);
                        } else {
                            assert(p2[j] == cur && p2[j + 1] == nv);
                            assert(edges[ni].a == cur || edges[ni].b == cur);
                        }
                    }
                    lemma_walk_closed(edges, visited.update(ni, true), start, nv, p2, walked.push(ni));
                }
            },
        }
    }
}

proof fn lemma_walk_all_closed(
    edges: Seq<Edge>,
    i: int,
    visited: Seq<bool>,
    loops: Seq<Seq<VertexId>>,
    orphans: Seq<(VertexId, VertexId)>,
)
    requires
        forall|k: int| 0 <= k < loops.len() ==> closed_walk(edges, #[trigger] loops[k]),
    ensures
        forall|k: int|
            0 <= k < walk_all(edges, i, visited, loops, orphans).0.len() ==> closed_walk(
                edges,
                #[trigger] walk_all(edges, i, visited, loops, orphans).0[k],
            ),
    decreases edges.len() - i,
{
    if i < 0 || i >= edges.len() || i >= visited.len() {
        assert(walk_all(edges, i, visited, loops, orphans) == (loops, orphans));
    } else if visited[i] {
        lemma_walk_all_closed(edges, i + 1, visited, loops, orphans);
        assert(walk_all(edges, i, visited, loops, orphans) == walk_all(edges, i + 1, visited, loops, orphans));
    } else {
        let p = seq![edges[i].a, edges[i].b];
        assert(joined(edges, p[0], p[1]));
        lemma_walk_closed(edges, visited.update(i, true), edges[i].a, edges[i].b, p, seq![i]);
        let (res, vis) = walk_from(edges, visited, i);
        match res {
            Walk::Closed(l) => {
                let lp = loops.push(l);
                assert forall|k: int| 0 <= k < lp.len() implies closed_walk(edges, #[trigger] lp[k]) by {
                    if k < loops.len() {
                        assert(lp[k] == loops[k]);
                    }
                }
                lemma_walk_all_closed(edges, i + 1, vis, lp, orphans);
                assert(walk_all(edges, i, visited, loops, orphans) == walk_all(edges, i + 1, vis, lp, orphans));
            },
            Walk::Stuck(w) => {
                lemma_walk_all_closed(edges, i + 1, vis, loops, orphans + orphan_pairs(edges, w));
                assert(walk_all(edges, i, visited, loops, orphans) == walk_all(edges, i + 1, vis, loops, orphans + orphan_pairs(edges, w)));
            },
        }
    }
}

/// Every loop found in a sector's edges is closed: each vertex is joined to
/// the next, and the last to the first, by one of the sector's edges.
pub proof fn lemma_loops_closed(edges: Seq<Edge>)
    ensures
        forall|k: int|
            0 <= k < sector_loops_spec(edges).0.len() ==> closed_walk(edges, #[trigger] sector_loops_spec(edges).0[k]),
{
    lemma_walk_all_closed(edges, 0, Seq::new(edges.len(), |i: int| false), Seq::empty(), Seq::empty());
}

// ---------------------------------------------------------------------------
// Every edge is walked by exactly one loop step or left as an orphan.

/// Edge `e` of the list joins `u` and `v`, in either direction.
pub open spec fn links(edges: Seq<Edge>, e: int, u: VertexId, v: VertexId) -> bool {
    &&& 0 <= e < edges.len()
    &&& ((edges[e].a == u && edges[e].b == v) || (edges[e].a == v && edges[e].b == u))
}

/// `steps[j]` is the index of the edge that loop `l` takes from its `j`-th
/// vertex to the next one, the last step going back to the first vertex.
pub open spec fn loop_steps(edges: Seq<Edge>, l: Seq<VertexId>, steps: Seq<int>) -> bool {
    &&& l.len() > 0
    &&& steps.len() == l.len()
    &&& forall|j: int| 0 <= j < l.len() - 1 ==> links(edges, #[trigger] steps[j], l[j], l[j + 1])
    &&& links(edges, steps.last(), l.last(), l[0])
}

/// The indices of the edges a walk has taken when it stops: the ones taken so
/// far, followed by those it still takes.
pub open spec fn walk_trace(
    edges: Seq<Edge>,
    visited: Seq<bool>,
    start: VertexId,
    cur: VertexId,
    walked: Seq<int>,
) -> Seq<int>
    decreases count_unvisited(visited),
{
    if cur == start {
        walked
    } else {
        match next_step(edges, visited, cur) {
            None => walked,
            Some((nv, ni)) => {
                if 0 <= ni < visited.len() && !visited[ni] {
                    proof {
                        lemma_mark_decreases(visited, ni);
                    }
                    walk_trace(edges, visited.update(ni, true), start, nv, walked.push(ni))
                } else {
                    walked
                }
            },
        }
    }
}

/// Alongside `walk_all`: for each closed loop the edge indices of its steps,
/// and the indices of the orphaned edges.
pub open spec fn walk_all_trace(
    edges: Seq<Edge>,
    i: int,
    visited: Seq<bool>,
    steps: Seq<Seq<int>>,
    orphans: Seq<int>,
) -> (Seq<Seq<int>>, Seq<int>)
    decreases edges.len() - i,
{
    if i < 0 || i >= edges.len() || i >= visited.len() {
        (steps, orphans)
    } else if visited[i] {
        walk_all_trace(edges, i + 1, visited, steps, orphans)
    } else {
        let (res, vis) = walk_from(edges, visited, i);
        let u = walk_trace(edges, visited.update(i, true), edges[i].a, edges[i].b, seq![i]);
        match res {
            Walk::Closed(_) => walk_all_trace(edges, i + 1, vis, steps.push(u), orphans),
            Walk::Stuck(_) => walk_all_trace(edges, i + 1, vis, steps, orphans + u),
        }
    }
}

/// The edge indices behind `sector_loops_spec`: the steps of each loop and
/// the orphaned edges.
pub open spec fn sector_loop_edges(edges: Seq<Edge>) -> (Seq<Seq<int>>, Seq<int>) {
    walk_all_trace(edges, 0, Seq::new(edges.len(), |i: int| false), Seq::empty(), Seq::empty())
}

/// Loops and orphans use the edges at the given indices: each loop step walks
/// its edge, the orphans are those edges, and no edge index is used twice.
pub open spec fn uses_edges(
    edges: Seq<Edge>,
    loops: Seq<Seq<VertexId>>,
    orphans: Seq<(VertexId, VertexId)>,
    steps: Seq<Seq<int>>,
    oi: Seq<int>,
) -> bool {
    &&& steps.len() == loops.len()
    &&& forall|k: int| 0 <= k < loops.len() ==> loop_steps(edges, #[trigger] loops[k], steps[k])
    &&& orphans == orphan_pairs(edges, oi)
    &&& forall|j: int| 0 <= j < oi.len() ==> 0 <= #[trigger] oi[j] < edges.len()
    &&& forall|j: int| 0 <= j < steps.flatten().len() ==> 0 <= #[trigger] steps.flatten()[j] < edges.len()
    &&& steps.flatten().no_duplicates()
    &&& oi.no_duplicates()
    &&& steps.flatten().disjoint(oi)
}

proof fn lemma_walk_trace(
    edges: Seq<Edge>,
    visited: Seq<bool>,
    start: VertexId,
    cur: VertexId,
    path: Seq<VertexId>,
    walked: Seq<int>,
)
    requires
        visited.len() == edges.len(),
        walked.len() >= 1,
        path.len() == walked.len() + 1,
        path[0] == start,
        path.last() == cur,
        walked.no_duplicates(),
        forall|j: int| 0 <= j < walked.len() ==> links(edges, #[trigger] walked[j], path[j], path[j + 1]),
        forall|j: int| 0 <= j < walked.len() ==> visited[#[trigger] walked[j]],
    ensures
        ({
            let (w, vis) = walk(edges, visited, start, cur, path, walked);
            let u = walk_trace(edges, visited, start, cur, walked);
            &&& vis.len() == visited.len()
            &&& walked.len() <= u.len()
            &&& forall|j: int| 0 <= j < walked.len() ==> u[j] == walked[j]
            &&& forall|j: int| walked.len() <= j < u.len() ==> !visited[#[trigger] u[j]]
            &&& forall|j: int| 0 <= j < u.len() ==> 0 <= #[trigger] u[j] < edges.len()
            &&& u.no_duplicates()
            &&& forall|x: int| 0 <= x < edges.len() ==> (vis[x] <==> (visited[x] || u.contains(x)))
            &&& match w {
                Walk::Closed(l) => loop_steps(edges, l, u),
                Walk::Stuck(ws) => ws == u,
            }
        }),
    decreases count_unvisited(visited),
{
    let u = walk_trace(edges, visited, start, cur, walked);
    if cur == start {
        let l = path.drop_last();
        assert forall|j: int| 0 <= j < l.len() - 1 implies links(edges, #[trigger] walked[j], l[j], l[j + 1]) by {
            assert(l[j] == path[j] && l[j + 1] == path[j + 1]);
        }
        assert(links(edges, walked[walked.len() - 1], path[walked.len() - 1], path[walked.len() as int]));
        assert forall|x: int| 0 <= x < edges.len() implies (visited[x] <==> (visited[x] || walked.contains(x))) by {
            if walked.contains(x) {
                let j = choose|j: int| 0 <= j < walked.len() && walked[j] == x;
                assert(visited[walked[j]]);
            }
        }
    } else {
        match next_step(edges, visited, cur) {
            None => {
                assert forall|x: int| 0 <= x < edges.len() implies (visited[x] <==> (visited[x] || walked.contains(x))) by {
                    if walked.contains(x) {
                        let j = choose|j: int| 0 <= j < walked.len() && walked[j] == x;
                        assert(visited[walked[j]]);
                    }
                }
            },
            Some((nv, ni)) => {
                if 0 <= ni < visited.len() && !visited[ni] {
                    lemma_mark_decreases(visited, ni);
                    lemma_first_incident_joins(edges, visited, cur, 0);
                    let v2 = visited.update(ni, true);
                    let p2 = path.push(nv);
                    let w2 = walked.push(ni);
                    assert forall|j: int| 0 <= j < w2.len() implies links(edges, #[trigger] w2[j], p2[j], p2[j + 1]) by {
                        if j < walked.len() {
                            assert(w2[j] == walked[j] && p2[j] == path[j] && p2[j + 1] == path[j + 1]);
                        } else {
                            assert(w2[j] == ni && p2[j] == cur && p2[j + 1] == nv);
                        }
                    }
                    assert forall|j: int| 0 <= j < w2.len() implies v2[#[trigger] w2[j]] by {
                        if j < walked.len() {
                            assert(w2[j] == walked[j]);
                        }
                    }
                    assert forall|a: int, b: int| 0 <= a < w2.len() && 0 <= b < w2.len() && a != b implies w2[a] != w2[b] by {
                        if a < walked.len() && b < walked.len() {
                            assert(w2[a] == walked[a] && w2[b] == walked[b]);
                        } else if a < walked.len() {
                            assert(visited[walked[a]]);
                        } else if b < walked.len() {
                            assert(visited[walked[b]]);
                        }
                    }
                    lemma_walk_trace(edges, v2, start, nv, p2, w2);
                    assert(u == walk_trace(edges, v2, start, nv, w2));
                    assert(walk(edges, visited, start, cur, path, walked) == walk(edges, v2, start, nv, p2, w2));
                    assert(u[walked.len() as int] == ni);
                    assert forall|j: int| walked.len() <= j < u.len() implies !visited[#[trigger] u[j]] by {
                        if j > walked.len() {
                            assert(!v2[u[j]]);
                        }
                    }
                    assert forall|x: int| 0 <= x < edges.len() implies (
                        #[trigger] walk(edges, v2, start, nv, p2, w2).1[x] <==> (visited[x] || u.contains(x))) by {
                        if x == ni {
                            assert(u.contains(x));
                        }
                    }
                } else {
                    assert forall|x: int| 0 <= x < edges.len() implies (visited[x] <==> (visited[x] || walked.contains(x))) by {
                        if walked.contains(x) {
                            let j = choose|j: int| 0 <= j < walked.len() && walked[j] == x;
                            assert(visited[walked[j]]);
                        }
                    }
                }
            },
        }
    }
}

proof fn lemma_concat_contains(a: Seq<int>, b: Seq<int>, x: int)
    ensures
        (a + b).contains(x) <==> (a.contains(x) || b.contains(x)),
{
    if a.contains(x) {
        let j = choose|j: int| 0 <= j < a.len() && a[j] == x;
        assert((a + b)[j] == x);
    }
    if b.contains(x) {
        let j = choose|j: int| 0 <= j < b.len() && b[j] == x;
        assert((a + b)[a.len() + j] == x);
    }
}

proof fn lemma_walk_all_trace(
    edges: Seq<Edge>,
    i: int,
    visited: Seq<bool>,
    loops: Seq<Seq<VertexId>>,
    orphans: Seq<(VertexId, VertexId)>,
    steps: Seq<Seq<int>>,
    oi: Seq<int>,
)
    requires
        0 <= i,
        visited.len() == edges.len(),
        forall|j: int| 0 <= j < i && j < visited.len() ==> visited[j],
        uses_edges(edges, loops, orphans, steps, oi),
        forall|x: int|
            0 <= x < edges.len() ==> (visited[x] <==> (steps.flatten().contains(x) || oi.contains(x))),
    ensures
        ({
            let (lo, or) = walk_all(edges, i, visited, loops, orphans);
            let (st, oi2) = walk_all_trace(edges, i, visited, steps, oi);
            &&& uses_edges(edges, lo, or, st, oi2)
            &&& forall|x: int| 0 <= x < edges.len() ==> st.flatten().contains(x) || oi2.contains(x)
        }),
    decreases edges.len() - i,
{
    let f = steps.flatten();
    if i >= edges.len() {
        assert forall|x: int| 0 <= x < edges.len() implies f.contains(x) || oi.contains(x) by {
            assert(visited[x]);
        }
    } else if visited[i] {
        lemma_walk_all_trace(edges, i + 1, visited, loops, orphans, steps, oi);
    } else {
        let v1 = visited.update(i, true);
        let a = edges[i].a;
        let b = edges[i].b;
        let p = seq![a, b];
        let w = seq![i];
        assert(links(edges, w[0], p[0], p[1]));
        lemma_mark_decreases(visited, i);
        lemma_walk_trace(edges, v1, a, b, p, w);
        let (res, vis) = walk_from(edges, visited, i);
        let u = walk_trace(edges, v1, a, b, w);
        assert(u[0] == i);
        // no index of `u` was used before this walk
        assert forall|m: int, n: int| 0 <= m < f.len() && 0 <= n < u.len() implies f[m] != u[n] by {
            assert(f.contains(f[m]));
            if n > 0 {
                assert(!v1[u[n]]);
            }
        }
        assert forall|m: int, n: int| 0 <= m < oi.len() && 0 <= n < u.len() implies oi[m] != u[n] by {
            assert(oi.contains(oi[m]));
            assert(0 <= oi[m] < edges.len());
            if n > 0 {
                assert(!v1[u[n]]);
            }
        }
        match res {
            Walk::Closed(l) => {
                let lp = loops.push(l);
                let sp = steps.push(u);
                steps.lemma_flatten_push(u);
                assert(sp.flatten() == f + u);
                vstd::seq_lib::lemma_no_dup_in_concat(f, u);
                assert forall|k: int| 0 <= k < lp.len() implies loop_steps(edges, #[trigger] lp[k], sp[k]) by {
                    if k < loops.len() {
                        assert(lp[k] == loops[k] && sp[k] == steps[k]);
                    }
                }
                assert forall|m: int, n: int| 0 <= m < (f + u).len() && 0 <= n < oi.len() implies (f + u)[m] != oi[n] by {
                    if m < f.len() {
                        assert((f + u)[m] == f[m]);
                    } else {
                        assert((f + u)[m] == u[m - f.len()]);
                    }
                }
                assert forall|j: int| 0 <= j < sp.flatten().len() implies 0 <= #[trigger] sp.flatten()[j] < edges.len() by {
                    if j < f.len() {
                        assert((f + u)[j] == f[j]);
                    } else {
                        assert((f + u)[j] == u[j - f.len()]);
                    }
                }
                assert forall|x: int| 0 <= x < edges.len() implies (vis[x] <==> (sp.flatten().contains(x) || oi.contains(x))) by {
                    lemma_concat_contains(f, u, x);
                }
                lemma_walk_all_trace(edges, i + 1, vis, lp, orphans, sp, oi);
            },
            Walk::Stuck(ws) => {
                let o2 = oi + u;
                vstd::seq_lib::lemma_no_dup_in_concat(oi, u);
                assert(orphans + orphan_pairs(edges, ws) == orphan_pairs(edges, o2));
                assert forall|j: int| 0 <= j < o2.len() implies 0 <= #[trigger] o2[j] < edges.len() by {
                    if j >= oi.len() {
                        assert(o2[j] == u[j - oi.len()]);
                    }
                }
                assert forall|m: int, n: int| 0 <= m < f.len() && 0 <= n < o2.len() implies f[m] != o2[n] by {
                    if n < oi.len() {
                        assert(o2[n] == oi[n]);
                    } else {
                        assert(o2[n] == u[n - oi.len()]);
                    }
                }
                assert forall|x: int| 0 <= x < edges.len() implies (vis[x] <==> (f.contains(x) || o2.contains(x))) by {
                    lemma_concat_contains(oi, u, x);
                }
                lemma_walk_all_trace(edges, i + 1, vis, loops, orphans + orphan_pairs(edges, ws), steps, o2);
            },
        }
    }
}

/// Every edge of a sector is used exactly once. Each loop step walks one of
/// the sector's edges between the two vertices it connects, the orphans are
/// edges of the sector, no edge is used by two steps, by a step and an
/// orphan, or twice among the orphans, and every edge is used.
pub proof fn lemma_every_edge_used_once(edges: Seq<Edge>)
    ensures
        ({
            let (loops, orphans) = sector_loops_spec(edges);
            let (steps, oi) = sector_loop_edges(edges);
            &&& uses_edges(edges, loops, orphans, steps, oi)
            &&& forall|x: int| 0 <= x < edges.len() ==> steps.flatten().contains(x) || oi.contains(x)
        }),
{
    let v = Seq::new(edges.len(), |i: int| false);
    let e: Seq<Seq<int>> = Seq::empty();
    assert(e.flatten() == Seq::<int>::empty());
    assert(orphan_pairs(edges, Seq::empty()) == Seq::<(VertexId, VertexId)>::empty());
    lemma_walk_all_trace(edges, 0, v, Seq::empty(), Seq::empty(), e, Seq::empty());
}

// ---------------------------------------------------------------------------
// What the loops and orphans of a sector's edges are.

/// The edges as vertex pairs, in order.
pub open spec fn edge_pairs(edges: Seq<Edge>) -> Seq<(VertexId, VertexId)> {
    edges.map_values(|e: Edge| (e.a, e.b))
}

/// Every edge is used exactly once: by one step of one loop, between the
/// two vertices the step joins, or as one orphan.
pub open spec fn edges_used_once(
    edges: Seq<Edge>,
    loops: Seq<Seq<VertexId>>,
    orphans: Seq<(VertexId, VertexId)>,
) -> bool {
    exists|steps: Seq<Seq<int>>, oi: Seq<int>|
        #![trigger uses_edges(edges, loops, orphans, steps, oi)]
        uses_edges(edges, loops, orphans, steps, oi) && forall|x: int|
            0 <= x < edges.len() ==> steps.flatten().contains(x) || oi.contains(x)
}

/// The loops and orphans a walk over `edges` gives: each loop is closed over
/// the edges, every edge is used exactly once, the loops hold as many
/// vertices as the edges less the orphans, and the orphans are some of the
/// edges.
pub open spec fn loops_of_edges(edges: Seq<Edge>, loops: Seq<Seq<VertexId>>, orphans: Seq<(VertexId, VertexId)>) -> bool {
    &&& forall|k: int| 0 <= k < loops.len() ==> closed_walk(edges, #[trigger] loops[k])
    &&& edges_used_once(edges, loops, orphans)
    &&& total_len(loops) + orphans.len() == edges.len()
    &&& orphans.to_multiset().subset_of(edge_pairs(edges).to_multiset())
}

proof fn lemma_distinct_pairs_subset(edges: Seq<Edge>, idx: Seq<int>, k: int)
    requires
        0 <= k <= edges.len(),
        idx.no_duplicates(),
        forall|j: int| 0 <= j < idx.len() ==> 0 <= #[trigger] idx[j] < k,
    ensures
        orphan_pairs(edges, idx).to_multiset().subset_of(orphan_pairs(edges, Seq::new(k as nat, |i: int| i)).to_multiset()),
    decreases k,
{
    broadcast use vstd::multiset::group_multiset_axioms, vstd::seq_lib::group_to_multiset_ensures;

    let all = Seq::new(k as nat, |i: int| i);
    if k == 0 {
        assert(idx.len() == 0) by {
            if idx.len() > 0 {
                assert(0 <= idx[0] < k);
            }
        }
        assert(orphan_pairs(edges, idx) =~= Seq::<(VertexId, VertexId)>::empty());
    } else {
        let prev = Seq::new((k - 1) as nat, |i: int| i);
        let x = (edges[k - 1].a, edges[k - 1].b);
        assert(all =~= prev.push(k - 1));
        assert(orphan_pairs(edges, all) =~= orphan_pairs(edges, prev).push(x));
        if idx.contains(k - 1) {
            let p = choose|p: int| 0 <= p < idx.len() && idx[p] == k - 1;
            let s1 = idx.subrange(0, p);
            let s2 = idx.subrange(p + 1, idx.len() as int);
            let rest = s1 + s2;
            assert(idx =~= s1 + seq![k - 1] + s2);
            assert forall|j: int| 0 <= j < rest.len() implies 0 <= #[trigger] rest[j] < k - 1 by {
                if j < s1.len() {
                    assert(rest[j] == idx[j]);
                    assert(idx[j] != idx[p]);
                } else {
                    assert(rest[j] == idx[j + 1]);
                    assert(idx[j + 1] != idx[p]);
                }
            }
            assert forall|a: int, b: int| 0 <= a < rest.len() && 0 <= b < rest.len() && a != b implies rest[a] != rest[b] by {
                let ia = if a < s1.len() { a } else { a + 1 };
                let ib = if b < s1.len() { b } else { b + 1 };
                assert(rest[a] == idx[ia] && rest[b] == idx[ib]);
            }
            lemma_distinct_pairs_subset(edges, rest, k - 1);
            let ps1 = orphan_pairs(edges, s1);
            let ps2 = orphan_pairs(edges, s2);
            assert(orphan_pairs(edges, idx) =~= ps1 + seq![x] + ps2);
            assert(orphan_pairs(edges, rest) =~= ps1 + ps2);
            vstd::seq_lib::lemma_multiset_commutative(ps1 + seq![x], ps2);
            vstd::seq_lib::lemma_multiset_commutative(ps1, seq![x]);
            vstd::seq_lib::lemma_multiset_commutative(ps1, ps2);
            assert(seq![x].to_multiset() =~= Multiset::empty().insert(x)) by {
                assert(seq![x] =~= Seq::<(VertexId, VertexId)>::empty().push(x));
            }
            assert(orphan_pairs(edges, idx).to_multiset() =~= orphan_pairs(edges, rest).to_multiset().insert(x));
        } else {
            assert forall|j: int| 0 <= j < idx.len() implies 0 <= #[trigger] idx[j] < k - 1 by {
                if idx[j] == k - 1 {
                    assert(idx.contains(k - 1));
                }
            }
            lemma_distinct_pairs_subset(edges, idx, k - 1);
        }
    }
}

/// Edge `e` joins `u` and `v`, in either direction.
pub open spec fn edge_joins(e: Edge, u: VertexId, v: VertexId) -> bool {
    (e.a == u && e.b == v) || (e.a == v && e.b == u)
}

/// The loops or orphans use edge `e`: it is an orphan, or it joins two
/// consecutive vertices of a loop (the last vertex to the first).
pub open spec fn edge_in_loops(loops: Seq<Seq<VertexId>>, orphans: Seq<(VertexId, VertexId)>, e: Edge) -> bool {
    ||| orphans.contains((e.a, e.b))
    ||| exists|k: int, j: int|
        0 <= k < loops.len() && 0 <= j < loops[k].len() && edge_joins(
            e,
            #[trigger] loops[k][j],
            loops[k][(j + 1) % (loops[k].len() as int)],
        )
}

proof fn lemma_flatten_index(s: Seq<Seq<int>>, x: int)
    requires
        s.flatten().contains(x),
    ensures
        exists|k: int, j: int| 0 <= k < s.len() && 0 <= j < s[k].len() && #[trigger] s[k][j] == x,
    decreases s.len(),
{
    if s.len() == 0 {
        assert(s.flatten() =~= Seq::<int>::empty());
    } else {
        let f = s.flatten();
        let rest = s.drop_first();
        assert(f == s[0] + rest.flatten());
        let p = choose|p: int| 0 <= p < f.len() && f[p] == x;
        if p < s[0].len() {
            assert(s[0][p] == x);
        } else {
            assert(rest.flatten()[p - s[0].len()] == x);
            lemma_flatten_index(rest, x);
            let (k, j) = choose|k: int, j: int| 0 <= k < rest.len() && 0 <= j < rest[k].len() && #[trigger] rest[k][j] == x;
            assert(s[k + 1][j] == x);
        }
    }
}

/// Every edge is used by the loops or the orphans that `loops_of_edges`
/// describes.
proof fn lemma_edge_in_loops(edges: Seq<Edge>, loops: Seq<Seq<VertexId>>, orphans: Seq<(VertexId, VertexId)>, x: int)
    requires
        loops_of_edges(edges, loops, orphans),
        0 <= x < edges.len(),
    ensures
        edge_in_loops(loops, orphans, edges[x]),
{
    let (steps, oi) = choose|steps: Seq<Seq<int>>, oi: Seq<int>|
        #![trigger uses_edges(edges, loops, orphans, steps, oi)]
        uses_edges(edges, loops, orphans, steps, oi) && forall|y: int|
            0 <= y < edges.len() ==> steps.flatten().contains(y) || oi.contains(y);
    if oi.contains(x) {
        let p = choose|p: int| 0 <= p < oi.len() && oi[p] == x;
        assert(orphans[p] == (edges[x].a, edges[x].b));
    } else {
        lemma_flatten_index(steps, x);
        let (k, j) = choose|k: int, j: int| 0 <= k < steps.len() && 0 <= j < steps[k].len() && #[trigger] steps[k][j] == x;
        let l = loops[k];
        assert(loop_steps(edges, l, steps[k]));
        if j < l.len() - 1 {
            assert(links(edges, steps[k][j], l[j], l[j + 1]));
            assert((j + 1) % (l.len() as int) == j + 1) by (nonlinear_arith)
                requires
                    0 <= j < l.len() - 1,
            ;
            assert(edge_joins(edges[x], l[j], l[(j + 1) % (l.len() as int)]));
        } else {
            assert(links(edges, steps[k].last(), l.last(), l[0]));
            assert((j + 1) % (l.len() as int) == 0) by (nonlinear_arith)
                requires
                    j == l.len() - 1,
                    l.len() > 0,
            ;
            assert(edge_joins(edges[x], l[j], l[(j + 1) % (l.len() as int)]));
        }
    }
}

/// The loops and orphans of a sector's edges are what `loops_of_edges` says.
pub proof fn lemma_sector_loops_laws(edges: Seq<Edge>)
    ensures
        loops_of_edges(edges, sector_loops_spec(edges).0, sector_loops_spec(edges).1),
{
    let (loops, orphans) = sector_loops_spec(edges);
    let (steps, oi) = sector_loop_edges(edges);
    lemma_loops_closed(edges);
    lemma_every_edge_accounted(edges);
    lemma_every_edge_used_once(edges);
    assert(uses_edges(edges, loops, orphans, steps, oi));
    lemma_distinct_pairs_subset(edges, oi, edges.len() as int);
    assert(orphan_pairs(edges, Seq::new(edges.len(), |i: int| i)) =~= edge_pairs(edges));
}

pub(crate) proof fn lemma_count_none_visited(visited: Seq<bool>)
    requires
        forall|j: int| 0 <= j < visited.len() ==> !visited[j],
    ensures
        count_unvisited(visited) == visited.len(),
    decreases visited.len(),
{
    if visited.len() > 0 {
        lemma_count_none_visited(visited.drop_last());
    }
}


// ---------------------------------------------------------------------------
// Grouping keeps each sector's edges together.

proof fn lemma_find_group(g: Seq<(SectorId, Seq<Edge>)>, s: SectorId, k: int)
    requires
        0 <= k,
    ensures
        match find_group(g, s, k) {
            Some(j) => k <= j < g.len() && g[j].0 == s,
            None => forall|m: int| k <= m < g.len() ==> g[m].0 != s,
        },
    decreases g.len() - k,
{
    if k >= g.len() {
    } else if g[k].0 == s {
    } else {
        lemma_find_group(g, s, k + 1);
    }
}

/// Grouping the records by sector gives one group per sector that owns an
/// edge, no sector twice, no empty group, and each group holds exactly that
/// sector's edges in record order.
pub proof fn lemma_groups_are_sector_edges(ev: Seq<(SectorId, Edge)>)
    ensures
        forall|k: int| 0 <= k < group_events(ev).len() ==> (#[trigger] group_events(ev)[k]).1.len() > 0,
        forall|a: int, b: int|
            0 <= a < b < group_events(ev).len() ==> group_events(ev)[a].0 != group_events(ev)[b].0,
        forall|k: int|
            0 <= k < group_events(ev).len() ==> (#[trigger] group_events(ev)[k]).1 == edges_of(
                ev,
                group_events(ev)[k].0,
            ),
        forall|s: SectorId|
            #![trigger edges_of(ev, s)]
            edges_of(ev, s).len() > 0 ==> exists|k: int|
                0 <= k < group_events(ev).len() && group_events(ev)[k].0 == s,
    decreases ev.len(),
{
    if ev.len() > 0 {
        let prev = ev.drop_last();
        let x = ev.last();
        lemma_groups_are_sector_edges(prev);
        let gp = group_events(prev);
        let g = group_events(ev);
        lemma_find_group(gp, x.0, 0);
        match find_group(gp, x.0, 0) {
            Some(k) => {
                assert forall|j: int| 0 <= j < g.len() implies (#[trigger] g[j]).1.len() > 0 by {
                    if j != k {
                        assert(g[j] == gp[j]);
                    }
                }
                assert forall|s: SectorId|
                    #![trigger edges_of(ev, s)]
                    edges_of(ev, s).len() > 0 implies exists|j: int|
                        0 <= j < g.len() && g[j].0 == s by {
                    if s != x.0 {
                        assert(edges_of(ev, s) == edges_of(prev, s));
                        let j = choose|j: int| 0 <= j < gp.len() && gp[j].0 == s;
                        assert(g[j].0 == s);
                    } else {
                        assert(g[k].0 == s);
                    }
                }
            },
            None => {
                if edges_of(prev, x.0).len() > 0 {
                    let j = choose|j: int| 0 <= j < gp.len() && gp[j].0 == x.0;
                    assert(gp[j].0 != x.0);
                }
                assert(edges_of(ev, x.0) =~= seq![x.1]);
                assert forall|j: int| 0 <= j < g.len() implies (#[trigger] g[j]).1.len() > 0 by {
                    if j < gp.len() {
                        assert(g[j] == gp[j]);
                    }
                }
                assert forall|s: SectorId|
                    #![trigger edges_of(ev, s)]
                    edges_of(ev, s).len() > 0 implies exists|j: int|
                        0 <= j < g.len() && g[j].0 == s by {
                    if s != x.0 {
                        assert(edges_of(ev, s) == edges_of(prev, s));
                        let j = choose|j: int| 0 <= j < gp.len() && gp[j].0 == s;
                        assert(g[j].0 == s);
                    } else {
                        assert(g[gp.len() as int].0 == s);
                    }
                }
            },
        }
    }
}

} // verus!
