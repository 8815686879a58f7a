//! Ordering a selection of linedefs into one open vertex path, as the
//! curve tool needs: every vertex is shared by at most two of the lines, and
//! exactly two vertices (the path's ends) by only one.

use vstd::prelude::*;

use crate::loops::{count_unvisited, find_next, first_incident_from, lemma_first_incident_unvisited, lemma_mark_decreases, next_step, Edge};
use crate::map::{LinedefId, MapData, VertexId};

verus! {

/// Number of line ends at `v` among the first `k` edges (a line joining
/// `v` to itself counts twice).
pub open spec fn degree_upto(edges: Seq<Edge>, v: VertexId, k: int) -> nat
    decreases k,
{
    if k <= 0 || k > edges.len() {
        0
    } else {
        degree_upto(edges, v, k - 1) + (if edges[k - 1].a == v { 1nat } else { 0nat }) + (if edges[k - 1].b == v {
            1nat
        } else {
            0nat
        })
    }
}

pub open spec fn degree(edges: Seq<Edge>, v: VertexId) -> nat {
    degree_upto(edges, v, edges.len() as int)
}

/// Every line end, in line order, first end before second.
pub open spec fn ends_seq(edges: Seq<Edge>) -> Seq<VertexId>
    decreases edges.len(),
{
    if edges.len() == 0 {
        Seq::empty()
    } else {
        ends_seq(edges.drop_last()) + seq![edges.last().a, edges.last().b]
    }
}

/// The vertices of degree one, in order of appearance.
pub open spec fn chain_ends(edges: Seq<Edge>) -> Seq<VertexId> {
    ends_seq(edges).filter(|v: VertexId| degree(edges, v) == 1)
}

/// No vertex is shared by more than two line ends.
pub open spec fn degrees_ok(edges: Seq<Edge>) -> bool {
    forall|k: int| 0 <= k < edges.len() ==> degree(edges, (#[trigger] edges[k]).a) <= 2 && degree(edges, edges[k].b) <= 2
}

/// Walk from `cur` along unvisited lines, stopping when stuck or when the
/// walk reaches `end` having used all lines. Returns the path, the indices
/// of the lines used, and the visited marks.
pub open spec fn chain_walk(
    edges: Seq<Edge>,
    visited: Seq<bool>,
    end: VertexId,
    cur: VertexId,
    path: Seq<VertexId>,
    walked: Seq<int>,
) -> (Seq<VertexId>, Seq<int>, Seq<bool>)
    decreases count_unvisited(visited),
{
    match next_step(edges, visited, cur) {
        None => (path, walked, visited),
        Some((nv, ni)) => {
            if 0 <= ni < visited.len() && !visited[ni] {
                proof {
                    lemma_mark_decreases(visited, ni);
                }
                let vis = visited.update(ni, true);
                if nv == end && walked.len() + 1 == edges.len() {
                    (path.push(nv), walked.push(ni), vis)
                } else {
                    chain_walk(edges, vis, end, nv, path.push(nv), walked.push(ni))
                }
            } else {
                (path, walked, visited)
            }
        },
    }
}

/// The lines of `ids`, resolved, as edges; `None` when one is missing.
pub open spec fn resolve_all(map: &MapData, ids: Seq<LinedefId>) -> Option<Seq<Edge>>
    decreases ids.len(),
{
    if ids.len() == 0 {
        Some(Seq::empty())
    } else {
        match (resolve_all(map, ids.drop_last()), map.linedef_at(ids.last())) {
            (Some(es), Some(l)) => Some(es.push(Edge { a: l.v1, b: l.v2 })),
            _ => None,
        }
    }
}

pub open spec fn distinct_ids(ids: Seq<LinedefId>) -> bool {
    forall|i: int, j: int| 0 <= i < j < ids.len() ==> ids[i] != ids[j]
}

/// The ordered vertex path of the selection `ids`, or `None` when the
/// selection is not a single open chain.
pub open spec fn line_chain_spec(map: &MapData, ids: Seq<LinedefId>) -> Option<Seq<VertexId>> {
    match resolve_all(map, ids) {
        None => None,
        Some(edges) => {
            if !distinct_ids(ids) || !degrees_ok(edges) || chain_ends(edges).len() != 2 {
                None
            } else {
                let ends = chain_ends(edges);
                let (path, walked, _) = chain_walk(
                    edges,
                    Seq::new(edges.len(), |i: int| false),
                    ends[1],
                    ends[0],
                    seq![ends[0]],
                    Seq::empty(),
                );
                if walked.len() == edges.len() {
                    Some(path)
                } else {
                    None
                }
            }
        },
    }
}

/// Line ends at `v`, counting no further than three.
fn degree_capped(edges: &Vec<Edge>, v: VertexId) -> (d: usize)
    ensures
        d == if degree(edges@, v) < 3 { degree(edges@, v) } else { 3 },
{
    let mut d: usize = 0;
    let mut k: usize = 0;
    while k < edges.len()
        invariant
            0 <= k <= edges@.len(),
            d == degree_upto(edges@, v, k as int),
            d <= 2,
        decreases edges@.len() - k,
    {
        if edges[k].a == v {
            d = d + 1;
        }
        if d > 2 {
            proof { lemma_degree_monotone(edges@, v, k + 1, edges@.len() as int); }
            return 3;
        }
        if edges[k].b == v {
            d = d + 1;
        }
        if d > 2 {
            proof { lemma_degree_monotone(edges@, v, k + 1, edges@.len() as int); }
            return 3;
        }
        k = k + 1;
    }
    d
}

proof fn lemma_degree_monotone(edges: Seq<Edge>, v: VertexId, i: int, j: int)
    requires
        0 <= i <= j <= edges.len(),
    ensures
        degree_upto(edges, v, i) <= degree_upto(edges, v, j),
    decreases j - i,
{
    if i < j {
        lemma_degree_monotone(edges, v, i, j - 1);
    }
}

proof fn lemma_ends_seq_index(edges: Seq<Edge>, k: int)
    requires
        0 <= k < edges.len(),
    ensures
        ends_seq(edges).len() == 2 * edges.len(),
        ends_seq(edges)[2 * k] == edges[k].a,
        ends_seq(edges)[2 * k + 1] == edges[k].b,
    decreases edges.len(),
{
    lemma_ends_seq_len(edges);
    if k < edges.len() - 1 {
        lemma_ends_seq_index(edges.drop_last(), k);
    }
}

proof fn lemma_ends_seq_len(edges: Seq<Edge>)
    ensures
        ends_seq(edges).len() == 2 * edges.len(),
    decreases edges.len(),
{
    if edges.len() > 0 {
        lemma_ends_seq_len(edges.drop_last());
    }
}

/// Order the selected linedefs into a vertex path. Returns `None` when a
/// line is missing or selected twice, when a vertex is shared by more than
/// two line ends, when the selection does not have exactly two ends, or when
/// the lines do not form one connected chain.
/// A path is returned exactly when the selection forms one connected open
/// chain.
pub fn order_line_chain(map: &MapData, line_ids: &Vec<LinedefId>) -> (r: Option<Vec<VertexId>>)
    ensures
        line_chain_spec(map, line_ids@) == match r {
            Some(p) => Some(p@),
            None => None::<Seq<VertexId>>,
        },
        r is Some <==> forms_open_chain(map, line_ids@),
{
    proof {
        lemma_chain_exactly_when(map, line_ids@);
    }
    let n = line_ids.len();
    // Resolve every selected line.
    let mut edges: Vec<Edge> = Vec::new();
    let mut i: usize = 0;
    while i < n
        invariant
            n == line_ids@.len(),
            0 <= i <= n,
            resolve_all(map, line_ids@.subrange(0, i as int)) == Some(edges@),
            edges@.len() == i,
        decreases n - i,
    {
        assert(line_ids@.subrange(0, i + 1).drop_last() =~= line_ids@.subrange(0, i as int));
        match map.linedef(line_ids[i]) {
            Some(l) => {
                edges.push(Edge { a: l.v1, b: l.v2 });
            },
            None => {
                proof { lemma_resolve_prefix_none(map, line_ids@, i as int + 1); }
                return None;
            },
        }
        i = i + 1;
    }
    assert(line_ids@.subrange(0, n as int) =~= line_ids@);
    // A line selected twice can never be walked as often as it is listed.
    let mut a: usize = 0;
    while a < n
        invariant
            n == line_ids@.len(),
            0 <= a <= n,
            resolve_all(map, line_ids@) == Some(edges@),
            forall|x: int, y: int| 0 <= x < y < n && x < a ==> line_ids@[x] != line_ids@[y],
        decreases n - a,
    {
        let mut b: usize = a + 1;
        while b < n
            invariant
                n == line_ids@.len(),
                a < n,
                resolve_all(map, line_ids@) == Some(edges@),
                a + 1 <= b <= n,
                forall|x: int, y: int| 0 <= x < y < n && x < a ==> line_ids@[x] != line_ids@[y],
                forall|y: int| a < y < b ==> line_ids@[a as int] != line_ids@[y],
            decreases n - b,
        {
            if line_ids[a] == line_ids[b] {
                assert(!distinct_ids(line_ids@)) by {
                    assert(line_ids@[a as int] == line_ids@[b as int]);
                }
                assert(line_chain_spec(map, line_ids@) is None);
                return None;
            }
            b = b + 1;
        }
        a = a + 1;
    }
    // Degrees and chain ends.
    let mut ends: Vec<VertexId> = Vec::new();
    let mut k: usize = 0;
    proof { lemma_ends_seq_len(edges@); }
    while k < n
        invariant
            n == edges@.len(),
            0 <= k <= n,
            resolve_all(map, line_ids@) == Some(edges@),
            distinct_ids(line_ids@),
            forall|x: int| 0 <= x < k ==> degree(edges@, (#[trigger] edges@[x]).a) <= 2 && degree(edges@, edges@[x].b) <= 2,
            ends@ == ends_seq(edges@.subrange(0, k as int)).filter(|v: VertexId| degree(edges@, v) == 1),
        decreases n - k,
    {
        let e = edges[k];
        let da = degree_capped(&edges, e.a);
        let db = degree_capped(&edges, e.b);
        if da > 2 || db > 2 {
            return None;
        }
        proof {
            let f = |v: VertexId| degree(edges@, v) == 1;
            let pre = edges@.subrange(0, k as int);
            assert(edges@.subrange(0, k + 1).drop_last() =~= pre);
            assert(ends_seq(edges@.subrange(0, k + 1)) == ends_seq(pre) + seq![e.a, e.b]);
            assert(ends_seq(pre) + seq![e.a, e.b] =~= ends_seq(pre).push(e.a).push(e.b));
            ends_seq(pre).lemma_filter_push(e.a, f);
            ends_seq(pre).push(e.a).lemma_filter_push(e.b, f);
        }
        if da == 1 {
            ends.push(e.a);
        }
        if db == 1 {
            ends.push(e.b);
        }
        k = k + 1;
    }
    assert(edges@.subrange(0, n as int) =~= edges@);
    assert(degrees_ok(edges@));
    if ends.len() != 2 {
        return None;
    }
    // Walk from the first end.
    let start = ends[0];
    let end = ends[1];
    let mut visited: Vec<bool> = vec![false; n];
    assert(visited@ =~= Seq::new(n as nat, |i: int| false));
    let mut path: Vec<VertexId> = Vec::new();
    path.push(start);
    let mut walked: Vec<usize> = Vec::new();
    let ghost target = chain_walk(edges@, visited@, end, start, path@, crate::loops::ints(walked@));
    assert(path@ =~= seq![start]);
    assert(crate::loops::ints(walked@) =~= Seq::<int>::empty());
    let mut cur = start;
    loop
        invariant_except_break
            target == chain_walk(edges@, visited@, end, cur, path@, crate::loops::ints(walked@)),
        invariant
            n == edges@.len(),
            visited@.len() == n,
            line_chain_spec(map, line_ids@) == (if target.1.len() == n { Some(target.0) } else { None::<Seq<VertexId>> }),
        ensures
            target.0 == path@,
            target.1 == crate::loops::ints(walked@),
        decreases count_unvisited(visited@),
    {
        match find_next(&edges, &visited, cur) {
            None => {
                break;
            },
            Some((nv, ni)) => {
                proof {
                    lemma_first_incident_unvisited(edges@, visited@, cur, 0);
                    lemma_mark_decreases(visited@, ni as int);
                }
                let ghost w0 = crate::loops::ints(walked@);
                visited[ni] = true;
                path.push(nv);
                walked.push(ni);
                assert(crate::loops::ints(walked@) =~= w0.push(ni as int));
                cur = nv;
                if nv == end && walked.len() == n {
                    break;
                }
            },
        }
    }
    assert(target.1.len() == walked@.len());
    if walked.len() == n {
        Some(path)
    } else {
        None
    }
}

proof fn lemma_resolve_prefix_none(map: &MapData, ids: Seq<LinedefId>, i: int)
    requires
        0 < i <= ids.len(),
        map.linedef_at(ids[i - 1]) is None,
    ensures
        resolve_all(map, ids) is None,
    decreases ids.len(),
{
    if i < ids.len() {
        lemma_resolve_prefix_none(map, ids.drop_last(), i);
    }
}


// ---------------------------------------------------------------------------
// What a chain is.

/// Line `e` joins `x` and `y`, in either direction.
pub open spec fn joins(e: Edge, x: VertexId, y: VertexId) -> bool {
    (e.a == x && e.b == y) || (e.b == x && e.a == y)
}

/// `path` walks the lines `walked` one after another, each line once.
pub open spec fn walks_lines(edges: Seq<Edge>, path: Seq<VertexId>, walked: Seq<int>) -> bool {
    &&& path.len() == walked.len() + 1
    &&& forall|k: int| 0 <= k < walked.len() ==> 0 <= #[trigger] walked[k] < edges.len()
    &&& forall|k: int| 0 <= k < walked.len() ==> joins(edges[#[trigger] walked[k]], path[k], path[k + 1])
    &&& forall|a: int, b: int| 0 <= a < b < walked.len() ==> walked[a] != walked[b]
}

proof fn lemma_first_incident_joins(edges: Seq<Edge>, visited: Seq<bool>, v: VertexId, i: int)
    ensures
        match first_incident_from(edges, visited, v, i) {
            Some((nv, ni)) => 0 <= ni < edges.len() && joins(edges[ni], v, nv),
            None => true,
        },
    decreases edges.len() - i,
{
    if i < 0 || i >= edges.len() {
    } else if !visited[i] && edges[i].a == v {
    } else if !visited[i] && edges[i].b == v {
    } else {
        lemma_first_incident_joins(edges, visited, v, i + 1);
    }
}

proof fn lemma_chain_walk_walks(
    edges: Seq<Edge>,
    visited: Seq<bool>,
    end: VertexId,
    cur: VertexId,
    path: Seq<VertexId>,
    walked: Seq<int>,
)
    requires
        visited.len() == edges.len(),
        walks_lines(edges, path, walked),
        path.last() == cur,
        forall|k: int| 0 <= k < walked.len() ==> visited[#[trigger] walked[k]],
    ensures
        walks_lines(edges, chain_walk(edges, visited, end, cur, path, walked).0, chain_walk(edges, visited, end, cur, path, walked).1),
        chain_walk(edges, visited, end, cur, path, walked).0[0] == path[0],
    decreases count_unvisited(visited),
{
    lemma_first_incident_joins(edges, visited, cur, 0);
    match next_step(edges, visited, cur) {
        None => {},
        Some((nv, ni)) => {
            if 0 <= ni < visited.len() && !visited[ni] {
                lemma_mark_decreases(visited, ni);
                let vis = visited.update(ni, true);
                let p2 = path.push(nv);
                let w2 = walked.push(ni);
                assert(walks_lines(edges, p2, w2)) by {
                    assert forall|k: int| 0 <= k < w2.len() implies joins(edges[#[trigger] w2[k]], p2[k], p2[k + 1]) by {
                        if k < walked.len() {
                            assert(w2[k] == walked[k]);
                            assert(p2[k] == path[k] && p2[k + 1] == path[k + 1]);
                        }
                    }
                    assert forall|a: int, b: int| 0 <= a < b < w2.len() implies w2[a] != w2[b] by {
                        if b == walked.len() {
                            assert(visited[walked[a]]);
                        }
                    }
                }
                if !(nv == end && walked.len() + 1 == edges.len()) {
                    lemma_chain_walk_walks(edges, vis, end, nv, p2, w2);
                }
            }
        },
    }
}

/// A chain found for a selection starts at one of its two ends and walks
/// every selected line exactly once, each step joining consecutive path
/// vertices.
pub proof fn lemma_chain_walks_every_line(map: &MapData, ids: Seq<LinedefId>)
    requires
        line_chain_spec(map, ids) is Some,
    ensures
        ({
            let edges = resolve_all(map, ids)->0;
            let path = line_chain_spec(map, ids)->0;
            &&& path.len() == ids.len() + 1
            &&& path[0] == chain_ends(edges)[0]
            &&& degree(edges, path[0]) == 1
            &&& exists|walked: Seq<int>| walks_lines(edges, path, walked) && walked.len() == ids.len()
        }),
{
    let edges = resolve_all(map, ids)->0;
    lemma_resolve_len(map, ids);
    let ends = chain_ends(edges);
    let v0 = Seq::new(edges.len(), |i: int| false);
    let start_path = seq![ends[0]];
    let empty_w = Seq::<int>::empty();
    assert(walks_lines(edges, start_path, empty_w));
    lemma_chain_walk_walks(edges, v0, ends[1], ends[0], start_path, empty_w);
    let (path, walked, _) = chain_walk(edges, v0, ends[1], ends[0], start_path, empty_w);
    let f = |v: VertexId| degree(edges, v) == 1;
    ends_seq(edges).lemma_filter_pred(f, 0);
    assert(walks_lines(edges, path, walked) && walked.len() == ids.len());
}

proof fn lemma_resolve_len(map: &MapData, ids: Seq<LinedefId>)
    ensures
        resolve_all(map, ids) matches Some(es) ==> es.len() == ids.len(),
    decreases ids.len(),
{
    if ids.len() > 0 {
        lemma_resolve_len(map, ids.drop_last());
    }
}

// ---------------------------------------------------------------------------
// A chain is a simple path.

/// Line ends of `e` at `v`.
pub open spec fn ends_at(e: Edge, v: VertexId) -> int {
    (if e.a == v { 1int } else { 0int }) + (if e.b == v { 1int } else { 0int })
}

/// Line ends at `v` among the first `k` lines that are not marked.
pub open spec fn free_ends(edges: Seq<Edge>, visited: Seq<bool>, v: VertexId, k: int) -> int
    decreases k,
{
    if k <= 0 || k > edges.len() {
        0
    } else {
        free_ends(edges, visited, v, k - 1) + if visited[k - 1] { 0int } else { ends_at(edges[k - 1], v) }
    }
}

/// How often `v` occurs in `s`.
pub open spec fn occurrences(s: Seq<VertexId>, v: VertexId) -> int
    decreases s.len(),
{
    if s.len() == 0 {
        0
    } else {
        occurrences(s.drop_last(), v) + if s.last() == v { 1int } else { 0int }
    }
}

/// Line ends at `v` that a path uses: two for each visit, less one at
/// either end of the path.
pub open spec fn path_ends(path: Seq<VertexId>, v: VertexId) -> int {
    2 * occurrences(path, v) - (if path[0] == v { 1int } else { 0int }) - (if path.last() == v { 1int } else { 0int })
}

proof fn lemma_free_ends_unmarked(edges: Seq<Edge>, visited: Seq<bool>, v: VertexId, k: int)
    requires
        visited.len() == edges.len(),
        forall|j: int| 0 <= j < visited.len() ==> !visited[j],
    ensures
        free_ends(edges, visited, v, k) == degree_upto(edges, v, k),
    decreases k,
{
    if 0 < k <= edges.len() {
        lemma_free_ends_unmarked(edges, visited, v, k - 1);
    }
}

proof fn lemma_free_ends_marked(edges: Seq<Edge>, visited: Seq<bool>, v: VertexId, k: int)
    requires
        visited.len() == edges.len(),
        forall|j: int| 0 <= j < visited.len() ==> visited[j],
    ensures
        free_ends(edges, visited, v, k) == 0,
    decreases k,
{
    if 0 < k <= edges.len() {
        lemma_free_ends_marked(edges, visited, v, k - 1);
    }
}

proof fn lemma_free_ends_mark(edges: Seq<Edge>, visited: Seq<bool>, v: VertexId, i: int, k: int)
    requires
        visited.len() == edges.len(),
        0 <= i < edges.len(),
        !visited[i],
        0 <= k <= edges.len(),
    ensures
        free_ends(edges, visited.update(i, true), v, k) + (if i < k { ends_at(edges[i], v) } else { 0int }) == free_ends(
            edges,
            visited,
            v,
            k,
        ),
    decreases k,
{
    if k > 0 {
        lemma_free_ends_mark(edges, visited, v, i, k - 1);
    }
}

proof fn lemma_all_marked(visited: Seq<bool>)
    requires
        count_unvisited(visited) == 0,
    ensures
        forall|j: int| 0 <= j < visited.len() ==> visited[j],
    decreases visited.len(),
{
    if visited.len() > 0 {
        lemma_all_marked(visited.drop_last());
        assert forall|j: int| 0 <= j < visited.len() implies visited[j] by {
            if j < visited.len() - 1 {
                assert(visited.drop_last()[j] == visited[j]);
            }
        }
    }
}

proof fn lemma_occurrences_push(s: Seq<VertexId>, x: VertexId, v: VertexId)
    ensures
        occurrences(s.push(x), v) == occurrences(s, v) + if x == v { 1int } else { 0int },
{
    assert(s.push(x).drop_last() =~= s);
}

proof fn lemma_occurrences_at(s: Seq<VertexId>, i: int, j: int)
    requires
        0 <= i <= j < s.len(),
        s[i] == s[j],
    ensures
        occurrences(s, s[i]) >= if i < j { 2int } else { 1int },
        occurrences(s, s[i]) >= 0,
    decreases s.len(),
{
    let t = s.drop_last();
    if s.len() > 0 {
        lemma_occurrences_nonneg(t, s[i]);
    }
    if j < s.len() - 1 {
        lemma_occurrences_at(t, i, j);
    } else if i < j {
        lemma_occurrences_at(t, i, i);
    }
}

proof fn lemma_occurrences_nonneg(s: Seq<VertexId>, v: VertexId)
    ensures
        occurrences(s, v) >= 0,
        occurrences(s, v) > 0 ==> s.contains(v),
    decreases s.len(),
{
    if s.len() > 0 {
        lemma_occurrences_nonneg(s.drop_last(), v);
        if occurrences(s.drop_last(), v) > 0 {
            let j = choose|j: int| 0 <= j < s.drop_last().len() && s.drop_last()[j] == v;
            assert(s[j] == v);
        } else if occurrences(s, v) > 0 {
            assert(s[s.len() - 1] == v);
        }
    }
}

proof fn lemma_chain_walk_balance(
    edges: Seq<Edge>,
    visited: Seq<bool>,
    end: VertexId,
    cur: VertexId,
    path: Seq<VertexId>,
    walked: Seq<int>,
)
    requires
        visited.len() == edges.len(),
        path.len() >= 1,
        path.last() == cur,
        forall|v: VertexId|
            #[trigger] degree(edges, v) == path_ends(path, v) + free_ends(edges, visited, v, edges.len() as int),
    ensures
        ({
            let (p, w, vis) = chain_walk(edges, visited, end, cur, path, walked);
            &&& p.len() >= 1
            &&& p[0] == path[0]
            &&& vis.len() == visited.len()
            &&& count_unvisited(vis) + w.len() == count_unvisited(visited) + walked.len()
            &&& forall|v: VertexId| #[trigger] degree(edges, v) == path_ends(p, v) + free_ends(edges, vis, v, edges.len() as int)
        }),
    decreases count_unvisited(visited),
{
    lemma_first_incident_joins(edges, visited, cur, 0);
    match next_step(edges, visited, cur) {
        None => {},
        Some((nv, ni)) => {
            if 0 <= ni < visited.len() && !visited[ni] {
                lemma_mark_decreases(visited, ni);
                let vis = visited.update(ni, true);
                let p2 = path.push(nv);
                assert forall|v: VertexId| #[trigger] degree(edges, v) == path_ends(p2, v) + free_ends(
                    edges,
                    vis,
                    v,
                    edges.len() as int,
                ) by {
                    lemma_free_ends_mark(edges, visited, v, ni, edges.len() as int);
                    lemma_occurrences_push(path, nv, v);
                    assert(p2[0] == path[0]);
                    assert(joins(edges[ni], cur, nv));
                }
                if !(nv == end && walked.len() + 1 == edges.len()) {
                    lemma_chain_walk_balance(edges, vis, end, nv, p2, walked.push(ni));
                }
            }
        },
    }
}

proof fn lemma_endpoint_degree(edges: Seq<Edge>, k: int)
    requires
        0 <= k < edges.len(),
    ensures
        degree(edges, edges[k].a) >= 1,
        degree(edges, edges[k].b) >= 1,
{
    lemma_degree_monotone(edges, edges[k].a, k + 1, edges.len() as int);
    lemma_degree_monotone(edges, edges[k].b, k + 1, edges.len() as int);
}

/// A chain found for a selection is a simple open path through every
/// selected line's vertices: no vertex twice, its two end vertices on one
/// selected line each, every other vertex on two. A chain is only found for
/// lines that all exist, none selected twice, no vertex on more than two of
/// them, and exactly two vertices on one.
pub proof fn lemma_chain_is_simple_path(map: &MapData, ids: Seq<LinedefId>)
    requires
        line_chain_spec(map, ids) is Some,
    ensures
        ({
            let edges = resolve_all(map, ids)->0;
            let path = line_chain_spec(map, ids)->0;
            &&& distinct_ids(ids)
            &&& degrees_ok(edges)
            &&& chain_ends(edges).len() == 2
            &&& path.no_duplicates()
            &&& degree(edges, path[0]) == 1
            &&& degree(edges, path.last()) == 1
            &&& forall|j: int| 0 < j < path.len() - 1 ==> degree(edges, #[trigger] path[j]) == 2
            &&& forall|k: int| 0 <= k < edges.len() ==> path.contains((#[trigger] edges[k]).a) && path.contains(edges[k].b)
        }),
{
    let edges = resolve_all(map, ids)->0;
    let n = edges.len() as int;
    lemma_resolve_len(map, ids);
    lemma_chain_walks_every_line(map, ids);
    let ends = chain_ends(edges);
    let v0 = Seq::new(edges.len(), |i: int| false);
    let start_path = seq![ends[0]];
    let empty_w = Seq::<int>::empty();
    assert forall|v: VertexId| #[trigger] degree(edges, v) == path_ends(start_path, v) + free_ends(edges, v0, v, n) by {
        lemma_free_ends_unmarked(edges, v0, v, n);
        lemma_occurrences_push(Seq::empty(), ends[0], v);
        assert(start_path == Seq::<VertexId>::empty().push(ends[0]));
    }
    lemma_chain_walk_balance(edges, v0, ends[1], ends[0], start_path, empty_w);
    assert(walks_lines(edges, start_path, empty_w));
    lemma_chain_walk_walks(edges, v0, ends[1], ends[0], start_path, empty_w);
    let (path, walked, vis) = chain_walk(edges, v0, ends[1], ends[0], start_path, empty_w);
    crate::loops::lemma_count_none_visited(v0);
    lemma_all_marked(vis);
    // every line walked: the ends a path uses are all the ends there are
    assert forall|v: VertexId| #[trigger] degree(edges, v) == path_ends(path, v) by {
        lemma_free_ends_marked(edges, vis, v, n);
    }
    assert(n >= 1) by {
        if n == 0 {
            assert(ends_seq(edges) =~= Seq::<VertexId>::empty());
            ends_seq(edges).lemma_filter_len(|v: VertexId| degree(edges, v) == 1);
        }
    }
    let last = path.len() - 1;
    // every vertex of the path lies on a walked line
    assert forall|j: int| 0 <= j < path.len() implies degree(edges, #[trigger] path[j]) <= 2 by {
        let k = if j < walked.len() { j } else { j - 1 };
        assert(joins(edges[walked[k]], path[k], path[k + 1]));
        assert(0 <= walked[k] < n);
        assert(degree(edges, edges[walked[k]].a) <= 2 && degree(edges, edges[walked[k]].b) <= 2);
    }
    assert forall|i: int, j: int| 0 <= i < path.len() && 0 <= j < path.len() && i != j implies path[i] != path[j] by {
        if path[i] == path[j] {
            let (a, b) = if i < j { (i, j) } else { (j, i) };
            lemma_occurrences_at(path, a, b);
            assert(degree(edges, path[a]) == path_ends(path, path[a]));
            assert(degree(edges, path[a]) <= 2);
            assert(degree(edges, path[0]) == 1);
        }
    }
    lemma_occurrences_at(path, last, last);
    lemma_occurrences_at(path, 0, 0);
    assert(degree(edges, path[last]) == path_ends(path, path[last]));
    assert(degree(edges, path[last]) <= 2);
    assert forall|j: int| 0 < j < path.len() - 1 implies degree(edges, #[trigger] path[j]) == 2 by {
        lemma_occurrences_at(path, j, j);
        assert(degree(edges, path[j]) == path_ends(path, path[j]));
        assert(path[j] != path[0] && path[j] != path[last]);
    }
    assert forall|k: int| 0 <= k < edges.len() implies path.contains((#[trigger] edges[k]).a) && path.contains(edges[k].b) by {
        lemma_endpoint_degree(edges, k);
        lemma_occurrences_nonneg(path, edges[k].a);
        lemma_occurrences_nonneg(path, edges[k].b);
        assert(degree(edges, edges[k].a) == path_ends(path, edges[k].a));
        assert(degree(edges, edges[k].b) == path_ends(path, edges[k].b));
    }
}

// ---------------------------------------------------------------------------
// When a chain is found.

/// Lines `i` and `j` share a vertex.
pub open spec fn touching(edges: Seq<Edge>, i: int, j: int) -> bool {
    ||| edges[i].a == edges[j].a
    ||| edges[i].a == edges[j].b
    ||| edges[i].b == edges[j].a
    ||| edges[i].b == edges[j].b
}

/// `c` lists lines, each sharing a vertex with the next.
pub open spec fn line_path(edges: Seq<Edge>, c: Seq<int>) -> bool {
    &&& c.len() > 0
    &&& forall|t: int| 0 <= t < c.len() ==> 0 <= #[trigger] c[t] < edges.len()
    &&& forall|t: int| 0 <= t < c.len() - 1 ==> touching(edges, #[trigger] c[t], c[t + 1])
}

/// Every line can be reached from every other through lines that share
/// vertices.
pub open spec fn connected(edges: Seq<Edge>) -> bool {
    forall|i: int, j: int| 0 <= i < edges.len() && 0 <= j < edges.len() ==> #[trigger] reaches(edges, i, j)
}

/// Line `j` can be reached from line `i` through lines that share vertices.
pub open spec fn reaches(edges: Seq<Edge>, i: int, j: int) -> bool {
    exists|c: Seq<int>| #[trigger] line_path(edges, c) && c[0] == i && c.last() == j
}

/// The selection forms one connected open chain: its lines all exist, none
/// is selected twice, no vertex lies on more than two of them, exactly two
/// vertices lie on one, and every line reaches every other.
pub open spec fn forms_open_chain(map: &MapData, ids: Seq<LinedefId>) -> bool {
    match resolve_all(map, ids) {
        None => false,
        Some(edges) => distinct_ids(ids) && degrees_ok(edges) && chain_ends(edges).len() == 2 && connected(edges),
    }
}

proof fn lemma_free_ends_nonneg(edges: Seq<Edge>, visited: Seq<bool>, v: VertexId, k: int)
    requires
        0 <= k <= edges.len(),
    ensures
        free_ends(edges, visited, v, k) >= 0,
        free_ends(edges, visited, v, k) == 0 ==> forall|i: int|
            0 <= i < k && !visited[i] ==> ends_at(#[trigger] edges[i], v) == 0,
    decreases k,
{
    if k > 0 {
        lemma_free_ends_nonneg(edges, visited, v, k - 1);
    }
}

/// No unmarked line at or after `i` touches `v` when the search from `i`
/// finds none.
proof fn lemma_no_incident(edges: Seq<Edge>, visited: Seq<bool>, v: VertexId, i: int)
    requires
        0 <= i,
        visited.len() == edges.len(),
        first_incident_from(edges, visited, v, i) is None,
    ensures
        forall|j: int| i <= j < edges.len() && !visited[j] ==> ends_at(#[trigger] edges[j], v) == 0,
    decreases edges.len() - i,
{
    if i < edges.len() {
        lemma_no_incident(edges, visited, v, i + 1);
    }
}

proof fn lemma_free_ends_none(edges: Seq<Edge>, visited: Seq<bool>, v: VertexId, k: int)
    requires
        0 <= k <= edges.len(),
        forall|j: int| 0 <= j < k && !visited[j] ==> ends_at(#[trigger] edges[j], v) == 0,
    ensures
        free_ends(edges, visited, v, k) == 0,
    decreases k,
{
    if k > 0 {
        lemma_free_ends_none(edges, visited, v, k - 1);
    }
}

/// A vertex of positive degree lies on some line.
proof fn lemma_degree_has_line(edges: Seq<Edge>, v: VertexId, k: int)
    requires
        degree_upto(edges, v, k) > 0,
    ensures
        exists|j: int| 0 <= j < k && j < edges.len() && (#[trigger] edges[j].a == v || edges[j].b == v),
    decreases k,
{
    if k > 0 && k <= edges.len() {
        if degree_upto(edges, v, k - 1) > 0 {
            lemma_degree_has_line(edges, v, k - 1);
        } else {
            assert(edges[k - 1].a == v || edges[k - 1].b == v);
        }
    }
}

/// A chain walk marks only the lines it walks, keeps the lines walked so
/// far at its front, and stops either with every line walked or where no
/// unmarked line continues it.
proof fn lemma_chain_walk_marks(
    edges: Seq<Edge>,
    visited: Seq<bool>,
    end: VertexId,
    cur: VertexId,
    path: Seq<VertexId>,
    walked: Seq<int>,
)
    requires
        visited.len() == edges.len(),
        path.len() >= 1,
        path.last() == cur,
    ensures
        ({
            let (p, w, vis) = chain_walk(edges, visited, end, cur, path, walked);
            &&& vis.len() == visited.len()
            &&& walked.len() <= w.len()
            &&& forall|j: int| 0 <= j < walked.len() ==> w[j] == walked[j]
            &&& forall|x: int| 0 <= x < edges.len() && vis[x] ==> visited[x] || w.contains(x)
            &&& p.len() >= 1
            &&& (w.len() == edges.len() || next_step(edges, vis, p.last()) is None)
        }),
    decreases count_unvisited(visited),
{
    lemma_first_incident_unvisited(edges, visited, cur, 0);
    match next_step(edges, visited, cur) {
        None => {},
        Some((nv, ni)) => {
            lemma_mark_decreases(visited, ni);
            let vis = visited.update(ni, true);
            let p2 = path.push(nv);
            let w2 = walked.push(ni);
            if nv == end && walked.len() + 1 == edges.len() {
                assert forall|x: int| 0 <= x < edges.len() && vis[x] implies visited[x] || w2.contains(x) by {
                    if x == ni {
                        assert(w2[walked.len() as int] == ni);
                    }
                }
            } else {
                lemma_chain_walk_marks(edges, vis, end, nv, p2, w2);
                let (p, w, vf) = chain_walk(edges, vis, end, nv, p2, w2);
                assert(w[walked.len() as int] == ni);
                assert forall|x: int| 0 <= x < edges.len() && vf[x] implies visited[x] || w.contains(x) by {
                    if x == ni {
                        assert(w[walked.len() as int] == x);
                    }
                }
                assert forall|j: int| 0 <= j < walked.len() implies w[j] == walked[j] by {
                    assert(w[j] == w2[j]);
                }
            }
        },
    }
}

/// Every line is reached along `c` from a marked first line, when no marked
/// line has an end at a vertex that still has unmarked lines.
proof fn lemma_reach_marked(
    edges: Seq<Edge>,
    vis: Seq<bool>,
    path: Seq<VertexId>,
    walked: Seq<int>,
    c: Seq<int>,
    t: int,
)
    requires
        vis.len() == edges.len(),
        line_path(edges, c),
        0 <= t < c.len(),
        vis[c[0]],
        walks_lines(edges, path, walked),
        forall|x: int| 0 <= x < edges.len() && vis[x] ==> walked.contains(x),
        forall|j: int| 0 <= j < path.len() ==> free_ends(edges, vis, #[trigger] path[j], edges.len() as int) == 0,
    ensures
        vis[c[t]],
    decreases t,
{
    if t > 0 {
        lemma_reach_marked(edges, vis, path, walked, c, t - 1);
        let x = c[t - 1];
        let y = c[t];
        assert(0 <= x < edges.len() && 0 <= y < edges.len());
        assert(touching(edges, c[t - 1], c[t]));
        let k = choose|k: int| 0 <= k < walked.len() && walked[k] == x;
        assert(joins(edges[walked[k]], path[k], path[k + 1]));
        if !vis[y] {
            lemma_free_ends_nonneg(edges, vis, path[k], edges.len() as int);
            lemma_free_ends_nonneg(edges, vis, path[k + 1], edges.len() as int);
            assert(ends_at(edges[y], path[k]) == 0);
            assert(ends_at(edges[y], path[k + 1]) == 0);
        }
    }
}

/// A chain is found exactly when the selection forms one connected open
/// chain.
pub proof fn lemma_chain_exactly_when(map: &MapData, ids: Seq<LinedefId>)
    ensures
        line_chain_spec(map, ids) is Some <==> forms_open_chain(map, ids),
{
    match resolve_all(map, ids) {
        None => {},
        Some(edges) => {
            if distinct_ids(ids) && degrees_ok(edges) && chain_ends(edges).len() == 2 {
                lemma_chain_walk_facts(edges);
            }
        },
    }
}

/// For edges with the shape of an open chain, the walk from its first end
/// walks every line exactly when the lines are connected.
proof fn lemma_chain_walk_facts(edges: Seq<Edge>)
    requires
        degrees_ok(edges),
        chain_ends(edges).len() == 2,
    ensures
        ({
            let ends = chain_ends(edges);
            let (path, walked, _) = chain_walk(
                edges,
                Seq::new(edges.len(), |i: int| false),
                ends[1],
                ends[0],
                seq![ends[0]],
                Seq::empty(),
            );
            walked.len() == edges.len() <==> connected(edges)
        }),
{
    let n = edges.len() as int;
    let ends = chain_ends(edges);
    let s = ends[0];
    let v0 = Seq::new(edges.len(), |i: int| false);
    let start_path = seq![s];
    let empty_w = Seq::<int>::empty();
    let f = |v: VertexId| degree(edges, v) == 1;
    ends_seq(edges).lemma_filter_pred(f, 0);
    assert(degree(edges, s) == 1);
    assert forall|v: VertexId| #[trigger] degree(edges, v) == path_ends(start_path, v) + free_ends(edges, v0, v, n) by {
        lemma_free_ends_unmarked(edges, v0, v, n);
        lemma_occurrences_push(Seq::empty(), s, v);
        assert(start_path == Seq::<VertexId>::empty().push(s));
    }
    lemma_chain_walk_balance(edges, v0, ends[1], s, start_path, empty_w);
    assert(walks_lines(edges, start_path, empty_w));
    lemma_chain_walk_walks(edges, v0, ends[1], s, start_path, empty_w);
    lemma_chain_walk_marks(edges, v0, ends[1], s, start_path, empty_w);
    let (path, walked, vis) = chain_walk(edges, v0, ends[1], s, start_path, empty_w);
    crate::loops::lemma_count_none_visited(v0);
    assert forall|x: int| 0 <= x < n && vis[x] implies walked.contains(x) by {}
    if walked.len() == n {
        // every line walked: consecutive walked lines share a path vertex
        lemma_all_marked(vis);
        assert forall|i: int, j: int| 0 <= i < n && 0 <= j < n implies #[trigger] reaches(edges, i, j) by {
            assert(vis[i] && vis[j]);
            let a = choose|a: int| 0 <= a < walked.len() && walked[a] == i;
            let b = choose|b: int| 0 <= b < walked.len() && walked[b] == j;
            let c = if a <= b {
                Seq::new((b - a + 1) as nat, |t: int| walked[a + t])
            } else {
                Seq::new((a - b + 1) as nat, |t: int| walked[a - t])
            };
            assert forall|t: int| 0 <= t < c.len() - 1 implies touching(edges, #[trigger] c[t], c[t + 1]) by {
                if a <= b {
                    let k = a + t;
                    assert(joins(edges[walked[k]], path[k], path[k + 1]));
                    assert(joins(edges[walked[k + 1]], path[k + 1], path[k + 2]));
                } else {
                    let k = a - t - 1;
                    assert(joins(edges[walked[k]], path[k], path[k + 1]));
                    assert(joins(edges[walked[k + 1]], path[k + 1], path[k + 2]));
                }
            }
            assert(line_path(edges, c) && c[0] == i && c.last() == j);
        }
    } else if connected(edges) {
        // the walk stopped early: no line is left at any vertex of the path
        let last = path.len() - 1;
        assert(next_step(edges, vis, path[last]) is None);
        lemma_no_incident(edges, vis, path[last], 0);
        lemma_free_ends_none(edges, vis, path[last], n);
        assert forall|j: int| 0 <= j < path.len() implies free_ends(edges, vis, #[trigger] path[j], n) == 0 by {
            let v = path[j];
            lemma_free_ends_nonneg(edges, vis, v, n);
            lemma_occurrences_at(path, j, j);
            if v != path[last] {
                let k = if j < walked.len() { j } else { j - 1 };
                assert(joins(edges[walked[k]], path[k], path[k + 1]));
                assert(degree(edges, edges[walked[k]].a) <= 2 && degree(edges, edges[walked[k]].b) <= 2);
                assert(degree(edges, v) == path_ends(path, v) + free_ends(edges, vis, v, n));
            }
        }
        // a line at the first end is marked, and every line is reached from it
        lemma_degree_has_line(edges, s, n);
        let e0 = choose|j: int| 0 <= j < n && (#[trigger] edges[j].a == s || edges[j].b == s);
        assert(vis[e0]) by {
            if !vis[e0] {
                lemma_free_ends_nonneg(edges, vis, path[0], n);
                assert(ends_at(edges[e0], path[0]) == 0);
            }
        }
        assert forall|x: int| 0 <= x < n implies vis[x] by {
            assert(reaches(edges, e0, x));
            let c = choose|c: Seq<int>| #[trigger] line_path(edges, c) && c[0] == e0 && c.last() == x;
            lemma_reach_marked(edges, vis, path, walked, c, c.len() - 1);
        }
        crate::loops::lemma_count_all_visited(vis);
    }
}

} // verus!
