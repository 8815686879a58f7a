//! Floor meshes of sectors. The constrained triangulation itself runs in the
//! caller; this module prepares its input (one position per distinct loop
//! vertex, loops rewritten as position indices, the constraint segments) and
//! keeps the triangles whose centroid lies inside the sector by the
//! even-odd rule, which discards triangles outside the polygon and in holes.

use vstd::prelude::*;

use crate::loops::SectorLoops;
use crate::map::{MapData, VertexId};

verus! {

/// Triangulated floor (or ceiling: same plan, other height) of one sector.
#[derive(Clone, Debug)]
pub struct FloorMesh {
    /// Plan positions in map units.
    pub positions: Vec<[i32; 2]>,
    /// Triangle corner indices into `positions`, three per triangle.
    pub indices: Vec<u32>,
}

#[derive(Clone, Copy, Debug, PartialEq, Eq, Structural)]
pub enum MeshError {
    /// The sector has no closed loop.
    NoLoops,
    /// A loop names a vertex the map does not hold.
    MissingVertex(VertexId),
}

pub open spec fn flatten(loops: Seq<Seq<VertexId>>) -> Seq<VertexId>
    decreases loops.len(),
{
    if loops.len() == 0 {
        Seq::empty()
    } else {
        flatten(loops.drop_last()) + loops.last()
    }
}

/// The distinct elements of `s` in order of first appearance.
pub open spec fn dedup(s: Seq<VertexId>) -> Seq<VertexId>
    decreases s.len(),
{
    if s.len() == 0 {
        Seq::empty()
    } else if dedup(s.drop_last()).contains(s.last()) {
        dedup(s.drop_last())
    } else {
        dedup(s.drop_last()).push(s.last())
    }
}

/// `i` is the index of the first `v` in `s`.
pub open spec fn is_first(s: Seq<VertexId>, v: VertexId, i: int) -> bool {
    0 <= i < s.len() && s[i] == v && forall|j: int| 0 <= j < i ==> s[j] != v
}

/// The first vertex, in loop order, that the map does not hold.
pub open spec fn first_missing(map: &MapData, s: Seq<VertexId>) -> Option<VertexId>
    decreases s.len(),
{
    if s.len() == 0 {
        None
    } else {
        match first_missing(map, s.drop_last()) {
            Some(v) => Some(v),
            None => if map.vertex_at(s.last()) is None {
                Some(s.last())
            } else {
                None
            },
        }
    }
}

pub open spec fn position_of(map: &MapData, v: VertexId) -> Seq<i32> {
    seq![map.vertex_at(v)->0.x, map.vertex_at(v)->0.y]
}

/// What interning the loops gives: one position per distinct vertex in order
/// of first appearance, and the loops as indices into those positions; or
/// the first vertex the map lacks.
pub open spec fn interned(
    map: &MapData,
    loops: Seq<Seq<VertexId>>,
    positions: Seq<Seq<i32>>,
    local: Seq<Seq<usize>>,
) -> bool {
    let order = dedup(flatten(loops));
    &&& positions.len() == order.len()
    &&& forall|i: int| 0 <= i < order.len() ==> #[trigger] positions[i] == position_of(map, order[i])
    &&& local.len() == loops.len()
    &&& forall|l: int| 0 <= l < loops.len() ==> (#[trigger] local[l]).len() == loops[l].len()
    &&& forall|l: int, m: int|
        0 <= l < loops.len() && 0 <= m < loops[l].len() ==> is_first(order, #[trigger] loops[l][m], local[l][m] as int)
}

/// Intern one vertex: its index among the interned vertices, adding it
/// (with its position) when new; `None` when the map does not hold it.
fn intern_vertex(map: &MapData, order: &mut Vec<VertexId>, positions: &mut Vec<[i32; 2]>, v: VertexId) -> (r: Option<usize>)
    requires
        old(positions)@.len() == old(order)@.len(),
        forall|i: int| 0 <= i < old(order)@.len() ==> map.vertex_at(#[trigger] old(order)@[i]) is Some,
    ensures
        final(positions)@.len() == final(order)@.len(),
        r is Some ==> map.vertex_at(v) is Some,
        match r {
            Some(i) => {
                &&& is_first(final(order)@, v, i as int)
                &&& final(order)@ == (if old(order)@.contains(v) { old(order)@ } else { old(order)@.push(v) })
                &&& final(positions)@ == (if old(order)@.contains(v) { old(positions)@ } else {
                    old(positions)@.push(final(positions)@.last()) })
                &&& (!old(order)@.contains(v) ==> final(positions)@.last()@ == position_of(map, v)
                    && map.vertex_at(v) is Some)
            },
            None => !old(order)@.contains(v) && map.vertex_at(v) is None,
        },
{
    let mut k: usize = 0;
    while k < order.len()
        invariant
            0 <= k <= order@.len(),
            order@ == old(order)@,
            positions@ == old(positions)@,
            positions@.len() == order@.len(),
            forall|i: int| 0 <= i < order@.len() ==> map.vertex_at(#[trigger] order@[i]) is Some,
            forall|j: int| 0 <= j < k ==> order@[j] != v,
        decreases order@.len() - k,
    {
        if order[k] == v {
            assert(order@.contains(v));
            return Some(k);
        }
        k = k + 1;
    }
    assert(!order@.contains(v));
    match map.vertex(v) {
        Some(p) => {
            let at = order.len();
            order.push(v);
            positions.push([p.x, p.y]);
            assert(positions@.last()@ =~= position_of(map, v));
            Some(at)
        },
        None => None,
    }
}

/// One position per distinct vertex of the loops and the loops rewritten as
/// position indices; or the first loop vertex the map does not hold.
pub fn intern_loops(map: &MapData, loops: &Vec<Vec<VertexId>>) -> (r: Result<(Vec<[i32; 2]>, Vec<Vec<usize>>), MeshError>)
    ensures
        match r {
            Ok((p, l)) => first_missing(map, flatten(loops@.map_values(|x: Vec<VertexId>| x@))) is None
                && interned(map, loops@.map_values(|x: Vec<VertexId>| x@), p@.map_values(|q: [i32; 2]| q@), l@.map_values(|x: Vec<usize>| x@)),
            Err(e) => first_missing(map, flatten(loops@.map_values(|x: Vec<VertexId>| x@))) is Some
                && e == MeshError::MissingVertex(first_missing(map, flatten(loops@.map_values(|x: Vec<VertexId>| x@)))->0),
        },
{
    let ghost lv = loops@.map_values(|x: Vec<VertexId>| x@);
    let mut order: Vec<VertexId> = Vec::new();
    let mut positions: Vec<[i32; 2]> = Vec::new();
    let mut local: Vec<Vec<usize>> = Vec::new();
    let mut li: usize = 0;
    assert(flatten(lv.subrange(0, 0)) =~= Seq::<VertexId>::empty());
    while li < loops.len()
        invariant
            lv == loops@.map_values(|x: Vec<VertexId>| x@),
            0 <= li <= loops@.len(),
            order@ == dedup(flatten(lv.subrange(0, li as int))),
            first_missing(map, flatten(lv.subrange(0, li as int))) is None,
            positions@.len() == order@.len(),
            forall|i: int| 0 <= i < order@.len() ==> (#[trigger] positions@[i])@ == position_of(map, order@[i]),
            forall|i: int| 0 <= i < order@.len() ==> map.vertex_at(#[trigger] order@[i]) is Some,
            local@.len() == li,
            forall|l: int| 0 <= l < li ==> (#[trigger] local@[l])@.len() == lv[l].len(),
            forall|l: int, m: int|
                0 <= l < li && 0 <= m < lv[l].len() ==> is_first(order@, #[trigger] lv[l][m], local@[l]@[m] as int),
        decreases loops@.len() - li,
    {
        let lp = &loops[li];
        let ghost pre = flatten(lv.subrange(0, li as int));
        let mut idxs: Vec<usize> = Vec::new();
        let mut m: usize = 0;
        assert(pre + lp@.subrange(0, 0) =~= pre);
        while m < lp.len()
            invariant
                lv == loops@.map_values(|x: Vec<VertexId>| x@),
                li < loops@.len(),
                lp@ == lv[li as int],
                0 <= m <= lp@.len(),
                order@ == dedup(pre + lp@.subrange(0, m as int)),
                first_missing(map, pre + lp@.subrange(0, m as int)) is None,
                pre == flatten(lv.subrange(0, li as int)),
                positions@.len() == order@.len(),
                forall|i: int| 0 <= i < order@.len() ==> (#[trigger] positions@[i])@ == position_of(map, order@[i]),
                forall|i: int| 0 <= i < order@.len() ==> map.vertex_at(#[trigger] order@[i]) is Some,
                idxs@.len() == m,
                forall|q: int| 0 <= q < m ==> is_first(order@, #[trigger] lp@[q], idxs@[q] as int),
                local@.len() == li,
                forall|l: int| 0 <= l < li ==> (#[trigger] local@[l])@.len() == lv[l].len(),
                forall|l: int, mm: int|
                    0 <= l < li && 0 <= mm < lv[l].len() ==> is_first(order@, #[trigger] lv[l][mm], local@[l]@[mm] as int),
            decreases lp@.len() - m,
        {
            let v = lp[m];
            let ghost prefix = pre + lp@.subrange(0, m as int);
            let ghost old_order = order@;
            let ghost old_pos = positions@;
            assert(pre + lp@.subrange(0, m + 1) =~= prefix.push(v));
            assert(prefix.push(v).drop_last() =~= prefix);
            match intern_vertex(map, &mut order, &mut positions, v) {
                Some(i) => {
                    idxs.push(i);
                    proof {
                        assert forall|ii: int| 0 <= ii < order@.len() implies (#[trigger] positions@[ii])@ == position_of(map, order@[ii]) by {
                            if ii < old_order.len() {
                                assert(positions@[ii] == old_pos[ii]);
                                assert(order@[ii] == old_order[ii]);
                            }
                        }
                        assert forall|ii: int| 0 <= ii < order@.len() implies map.vertex_at(#[trigger] order@[ii]) is Some by {
                            if ii < old_order.len() {
                                assert(order@[ii] == old_order[ii]);
                            }
                        }
                        assert(first_missing(map, prefix.push(v)) is None);
                        assert forall|q: int| 0 <= q < m + 1 implies is_first(order@, #[trigger] lp@[q], idxs@[q] as int) by {
                            if q < m {
                                assert(is_first(old_order, lp@[q], idxs@[q] as int));
                            }
                        }
                        assert forall|l: int, mm: int|
                            0 <= l < li && 0 <= mm < lv[l].len() implies is_first(order@, #[trigger] lv[l][mm], local@[l]@[mm] as int) by {
                            assert(is_first(old_order, lv[l][mm], local@[l]@[mm] as int));
                        }
                    }
                },
                None => {
                    proof {
                        lemma_first_missing_extend(map, lv, li as int, prefix.push(v), m as int + 1);
                    }
                    return Err(MeshError::MissingVertex(v));
                },
            }
            m = m + 1;
        }
        local.push(idxs);
        proof {
            assert(lv.subrange(0, li + 1).drop_last() =~= lv.subrange(0, li as int));
            assert(lp@.subrange(0, lp@.len() as int) =~= lp@);
            assert(flatten(lv.subrange(0, li + 1)) == pre + lp@);
        }
        li = li + 1;
    }
    assert(lv.subrange(0, loops@.len() as int) =~= lv);
    Ok((positions, local))
}

proof fn lemma_first_missing_extend(map: &MapData, lv: Seq<Seq<VertexId>>, li: int, s: Seq<VertexId>, m: int)
    requires
        0 <= li < lv.len(),
        0 <= m <= lv[li].len(),
        s == flatten(lv.subrange(0, li)) + lv[li].subrange(0, m),
        first_missing(map, s) is Some,
    ensures
        first_missing(map, flatten(lv)) == first_missing(map, s),
{
    let pre = lv.subrange(0, li);
    let rest = lv.subrange(li + 1, lv.len() as int);
    lemma_flatten_append(pre, lv.subrange(li, lv.len() as int));
    assert(lv =~= pre + lv.subrange(li, lv.len() as int));
    let tail = lv.subrange(li, lv.len() as int);
    assert(tail =~= seq![lv[li]] + rest);
    lemma_flatten_append(seq![lv[li]], rest);
    assert(flatten(seq![lv[li]]) =~= lv[li]) by {
        assert(seq![lv[li]].drop_last() =~= Seq::<Seq<VertexId>>::empty());
        assert(flatten(Seq::<Seq<VertexId>>::empty()) =~= Seq::<VertexId>::empty());
        assert(seq![lv[li]].last() == lv[li]);
    }
    assert(lv[li] =~= lv[li].subrange(0, m) + lv[li].subrange(m, lv[li].len() as int));
    let t = lv[li].subrange(m, lv[li].len() as int) + flatten(rest);
    assert(flatten(lv) =~= s + t);
    lemma_first_missing_append(map, s, t);
}

proof fn lemma_flatten_append(a: Seq<Seq<VertexId>>, b: Seq<Seq<VertexId>>)
    ensures
        flatten(a + b) == flatten(a) + flatten(b),
    decreases b.len(),
{
    if b.len() == 0 {
        assert(a + b =~= a);
        assert(flatten(b) =~= Seq::<VertexId>::empty());
        assert(flatten(a) + flatten(b) =~= flatten(a));
    } else {
        lemma_flatten_append(a, b.drop_last());
        assert((a + b).drop_last() =~= a + b.drop_last());
        assert(flatten(a) + flatten(b) =~= flatten(a) + flatten(b.drop_last()) + b.last());
    }
}

proof fn lemma_first_missing_append(map: &MapData, s: Seq<VertexId>, t: Seq<VertexId>)
    requires
        first_missing(map, s) is Some,
    ensures
        first_missing(map, s + t) == first_missing(map, s),
    decreases t.len(),
{
    if t.len() == 0 {
        assert(s + t =~= s);
    } else {
        lemma_first_missing_append(map, s, t.drop_last());
        assert((s + t).drop_last() =~= s + t.drop_last());
    }
}


/// The input of the triangulation of a sector: positions and loops as
/// position indices; `NoLoops` when the sector has no closed loop.
pub fn prepare_sector(map: &MapData, loops: &SectorLoops) -> (r: Result<(Vec<[i32; 2]>, Vec<Vec<usize>>), MeshError>)
    ensures
        loops.loops@.len() == 0 ==> r == Err::<(Vec<[i32; 2]>, Vec<Vec<usize>>), MeshError>(MeshError::NoLoops),
        loops.loops@.len() > 0 ==> match r {
            Ok((p, l)) => first_missing(map, flatten(loops.loops_view())) is None
                && interned(map, loops.loops_view(), p@.map_values(|q: [i32; 2]| q@), l@.map_values(|x: Vec<usize>| x@)),
            Err(e) => first_missing(map, flatten(loops.loops_view())) is Some
                && e == MeshError::MissingVertex(first_missing(map, flatten(loops.loops_view()))->0),
        },
{
    if loops.loops.len() == 0 {
        return Err(MeshError::NoLoops);
    }
    intern_loops(map, &loops.loops)
}

/// The constraint segments of the loops: each edge of every loop of three or
/// more vertices (from a vertex to the next, the last back to the first),
/// leaving out edges from a position to itself.
pub open spec fn loop_segments(l: Seq<usize>, i: int) -> Seq<(usize, usize)>
    decreases i,
{
    if i <= 0 || i > l.len() {
        Seq::empty()
    } else {
        let a = l[i - 1];
        let b = l[i % l.len() as int];
        loop_segments(l, i - 1) + if a == b { Seq::<(usize, usize)>::empty() } else { seq![(a, b)] }
    }
}

pub open spec fn all_segments(loops: Seq<Seq<usize>>) -> Seq<(usize, usize)>
    decreases loops.len(),
{
    if loops.len() == 0 {
        Seq::empty()
    } else {
        all_segments(loops.drop_last()) + if loops.last().len() < 3 {
            Seq::<(usize, usize)>::empty()
        } else {
            loop_segments(loops.last(), loops.last().len() as int)
        }
    }
}

/// The segments the triangulation is constrained to, in loop order.
pub fn constraint_segments(loops: &Vec<Vec<usize>>) -> (r: Vec<(usize, usize)>)
    ensures
        r@ == all_segments(loops@.map_values(|x: Vec<usize>| x@)),
{
    let ghost lv = loops@.map_values(|x: Vec<usize>| x@);
    let mut out: Vec<(usize, usize)> = Vec::new();
    let mut li: usize = 0;
    while li < loops.len()
        invariant
            lv == loops@.map_values(|x: Vec<usize>| x@),
            0 <= li <= loops@.len(),
            out@ == all_segments(lv.subrange(0, li as int)),
        decreases loops@.len() - li,
    {
        let l = &loops[li];
        assert(lv.subrange(0, li + 1).drop_last() =~= lv.subrange(0, li as int));
        if l.len() >= 3 {
            let ghost base = out@;
            let n = l.len();
            let mut w: usize = 0;
            while w < n
                invariant
                    l@ == lv[li as int],
                    n == l@.len(),
                    n >= 3,
                    0 <= w <= n,
                    out@ == base + loop_segments(l@, w as int),
                decreases n - w,
            {
                let a = l[w];
                let b = l[(w + 1) % n];
                if a != b {
                    out.push((a, b));
                }
                assert(out@ =~= base + loop_segments(l@, w + 1));
                w = w + 1;
            }
        }
        li = li + 1;
    }
    assert(lv.subrange(0, loops@.len() as int) =~= lv);
    out
}

/// The edge from `pj` to `pi` crosses the horizontal ray going right from
/// the point (sx / 3, sy / 3) (a triangle centroid given by its coordinate
/// sums), in exact arithmetic.
pub open spec fn crosses(pi: Seq<i32>, pj: Seq<i32>, sx: int, sy: int) -> bool {
    let above_i = 3 * pi[1] > sy;
    let above_j = 3 * pj[1] > sy;
    above_i != above_j && {
        let dy = pj[1] - pi[1];
        let lhs = (sx - 3 * pi[0]) * dy;
        let rhs = (pj[0] - pi[0]) * (sy - 3 * pi[1]);
        if dy > 0 {
            lhs < rhs
        } else {
            lhs > rhs
        }
    }
}

/// Parity of the crossings of the first `i` edges of loop `l` (edge `i`
/// runs from the vertex before `i` to vertex `i`).
pub open spec fn loop_parity(pos: Seq<Seq<i32>>, l: Seq<usize>, sx: int, sy: int, i: int) -> bool
    decreases i,
{
    if i <= 0 || i > l.len() {
        false
    } else {
        let j = if i - 1 == 0 { l.len() - 1 } else { i - 2 };
        loop_parity(pos, l, sx, sy, i - 1) != crosses(pos[l[i - 1] as int], pos[l[j] as int], sx, sy)
    }
}

/// Even-odd rule over all loops of three or more vertices.
pub open spec fn inside_loops(pos: Seq<Seq<i32>>, loops: Seq<Seq<usize>>, sx: int, sy: int) -> bool
    decreases loops.len(),
{
    if loops.len() == 0 {
        false
    } else {
        let l = loops.last();
        inside_loops(pos, loops.drop_last(), sx, sy) != (l.len() >= 3 && loop_parity(pos, l, sx, sy, l.len() as int))
    }
}

pub open spec fn loops_in_range(loops: Seq<Seq<usize>>, n: int) -> bool {
    forall|l: int, m: int| 0 <= l < loops.len() && 0 <= m < loops[l].len() ==> (#[trigger] loops[l][m]) < n
}

fn crosses_exec(pi: [i32; 2], pj: [i32; 2], sx: i64, sy: i64) -> (b: bool)
    requires
        -6442450944 <= sx <= 6442450944,
        -6442450944 <= sy <= 6442450944,
    ensures
        b == crosses(pi@, pj@, sx as int, sy as int),
{
    let above_i = 3 * (pi[1] as i64) > sy;
    let above_j = 3 * (pj[1] as i64) > sy;
    if above_i == above_j {
        return false;
    }
    let dy: i128 = pj[1] as i128 - pi[1] as i128;
    let a: i128 = sx as i128 - 3 * (pi[0] as i128);
    let c: i128 = pj[0] as i128 - pi[0] as i128;
    let d: i128 = sy as i128 - 3 * (pi[1] as i128);
    assert(-20000000000 <= a <= 20000000000);
    assert(-20000000000 <= d <= 20000000000);
    assert(-5000000000 <= dy <= 5000000000);
    assert(-5000000000 <= c <= 5000000000);
    assert(-100000000000000000000 <= a * dy <= 100000000000000000000) by (nonlinear_arith)
        requires
            -20000000000 <= a <= 20000000000,
            -5000000000 <= dy <= 5000000000,
    ;
    assert(-100000000000000000000 <= c * d <= 100000000000000000000) by (nonlinear_arith)
        requires
            -20000000000 <= d <= 20000000000,
            -5000000000 <= c <= 5000000000,
    ;
    let lhs = a * dy;
    let rhs = c * d;
    if dy > 0 {
        lhs < rhs
    } else {
        lhs > rhs
    }
}

/// Whether the centroid with coordinate sums (sx, sy) is inside the loops.
pub fn point_inside_loops(loops: &Vec<Vec<usize>>, positions: &Vec<[i32; 2]>, sx: i64, sy: i64) -> (b: bool)
    requires
        loops_in_range(loops@.map_values(|x: Vec<usize>| x@), positions@.len() as int),
        -6442450944 <= sx <= 6442450944,
        -6442450944 <= sy <= 6442450944,
    ensures
        b == inside_loops(positions@.map_values(|q: [i32; 2]| q@), loops@.map_values(|x: Vec<usize>| x@), sx as int, sy as int),
{
    let ghost lv = loops@.map_values(|x: Vec<usize>| x@);
    let ghost pv = positions@.map_values(|q: [i32; 2]| q@);
    let mut inside = false;
    let mut li: usize = 0;
    while li < loops.len()
        invariant
            lv == loops@.map_values(|x: Vec<usize>| x@),
            pv == positions@.map_values(|q: [i32; 2]| q@),
            loops_in_range(lv, positions@.len() as int),
            -6442450944 <= sx <= 6442450944,
            -6442450944 <= sy <= 6442450944,
            0 <= li <= loops@.len(),
            inside == inside_loops(pv, lv.subrange(0, li as int), sx as int, sy as int),
        decreases loops@.len() - li,
    {
        let l = &loops[li];
        let n = l.len();
        assert(lv.subrange(0, li + 1).drop_last() =~= lv.subrange(0, li as int));
        if n >= 3 {
            let mut par = false;
            let mut i: usize = 0;
            while i < n
                invariant
                    l@ == lv[li as int],
                    n == l@.len(),
                    n >= 3,
                    li < lv.len(),
                    loops_in_range(lv, positions@.len() as int),
                    pv == positions@.map_values(|q: [i32; 2]| q@),
                    -6442450944 <= sx <= 6442450944,
                    -6442450944 <= sy <= 6442450944,
                    0 <= i <= n,
                    par == loop_parity(pv, l@, sx as int, sy as int, i as int),
                decreases n - i,
            {
                let j = if i == 0 { n - 1 } else { i - 1 };
                assert(l@[i as int] == lv[li as int][i as int]);
                assert(l@[j as int] == lv[li as int][j as int]);
                let pi = positions[l[i]];
                let pj = positions[l[j]];
                let c = crosses_exec(pi, pj, sx, sy);
                par = par != c;
                i = i + 1;
            }
            inside = inside != par;
        }
        li = li + 1;
    }
    assert(lv.subrange(0, loops@.len() as int) =~= lv);
    inside
}

fn find_position(positions: &Vec<[i32; 2]>, p: [i32; 2]) -> (r: Option<usize>)
    ensures
        match r {
            Some(i) => first_match(positions@.map_values(|q: [i32; 2]| q@), p@, i as int),
            None => no_match(positions@.map_values(|q: [i32; 2]| q@), p@),
        },
{
    let ghost pv = positions@.map_values(|q: [i32; 2]| q@);
    let mut i: usize = 0;
    while i < positions.len()
        invariant
            pv == positions@.map_values(|q: [i32; 2]| q@),
            0 <= i <= positions@.len(),
            forall|j: int| 0 <= j < i ==> pv[j] != p@,
        decreases positions@.len() - i,
    {
        if positions[i][0] == p[0] && positions[i][1] == p[1] {
            assert(pv[i as int] =~= p@);
            return Some(i);
        }
        assert(pv[i as int] == positions@[i as int]@);
        i = i + 1;
    }
    None
}

/// A triangle of the triangulation, by its three corners.
pub type Face = ([i32; 2], [i32; 2], [i32; 2]);

pub open spec fn first_match(pos: Seq<Seq<i32>>, p: Seq<i32>, i: int) -> bool {
    0 <= i < pos.len() && pos[i] == p && forall|j: int| 0 <= j < i ==> pos[j] != p
}

pub open spec fn no_match(pos: Seq<Seq<i32>>, p: Seq<i32>) -> bool {
    forall|j: int| 0 <= j < pos.len() ==> pos[j] != p
}

/// The index triples kept from the faces: a face is kept when its centroid
/// is inside the loops and each corner is one of the positions; its corners
/// are written as the indices of their first equal position.
pub open spec fn kept_indices(pos: Seq<Seq<i32>>, loops: Seq<Seq<usize>>, faces: Seq<Face>, out: Seq<u32>) -> bool
    decreases faces.len(),
{
    if faces.len() == 0 {
        out.len() == 0
    } else {
        let f = faces.last();
        let sx = f.0[0] + f.1[0] + f.2[0];
        let sy = f.0[1] + f.1[1] + f.2[1];
        if inside_loops(pos, loops, sx, sy) && !no_match(pos, f.0@) && !no_match(pos, f.1@) && !no_match(pos, f.2@) {
            &&& out.len() >= 3
            &&& kept_indices(pos, loops, faces.drop_last(), out.subrange(0, out.len() - 3))
            &&& exists|a: int, b: int, c: int|
                first_match(pos, f.0@, a) && first_match(pos, f.1@, b) && first_match(pos, f.2@, c)
                    && out[out.len() - 3] == a as u32 && out[out.len() - 2] == b as u32 && out[out.len() - 1] == c as u32
        } else {
            kept_indices(pos, loops, faces.drop_last(), out)
        }
    }
}

fn keep_face(loops: &Vec<Vec<usize>>, positions: &Vec<[i32; 2]>, f: Face, indices: &mut Vec<u32>)
    requires
        loops_in_range(loops@.map_values(|x: Vec<usize>| x@), positions@.len() as int),
    ensures
        ({
            let pv = positions@.map_values(|q: [i32; 2]| q@);
            let lv = loops@.map_values(|x: Vec<usize>| x@);
            let sx = f.0[0] + f.1[0] + f.2[0];
            let sy = f.0[1] + f.1[1] + f.2[1];
            if inside_loops(pv, lv, sx, sy) && !no_match(pv, f.0@) && !no_match(pv, f.1@) && !no_match(pv, f.2@) {
                &&& final(indices)@.len() == old(indices)@.len() + 3
                &&& final(indices)@.subrange(0, old(indices)@.len() as int) == old(indices)@
                &&& exists|a: int, b: int, c: int|
                    first_match(pv, f.0@, a) && first_match(pv, f.1@, b) && first_match(pv, f.2@, c)
                        && final(indices)@[final(indices)@.len() - 3] == a as u32
                        && final(indices)@[final(indices)@.len() - 2] == b as u32
                        && final(indices)@[final(indices)@.len() - 1] == c as u32
            } else {
                final(indices)@ == old(indices)@
            }
        }),
{
    let sx: i64 = f.0[0] as i64 + f.1[0] as i64 + f.2[0] as i64;
    let sy: i64 = f.0[1] as i64 + f.1[1] as i64 + f.2[1] as i64;
    let inside = point_inside_loops(loops, positions, sx, sy);
    let i0 = find_position(positions, f.0);
    let i1 = find_position(positions, f.1);
    let i2 = find_position(positions, f.2);
    if inside {
        if let (Some(a), Some(b), Some(c)) = (i0, i1, i2) {
            indices.push(a as u32);
            indices.push(b as u32);
            indices.push(c as u32);
            assert(indices@.subrange(0, old(indices)@.len() as int) =~= old(indices)@);
        }
    }
}

/// Keep the triangulation's faces that lie inside the sector and write
/// them as index triples into `positions`.
pub fn keep_inner_faces(loops: &Vec<Vec<usize>>, positions: Vec<[i32; 2]>, faces: &Vec<Face>) -> (r: FloorMesh)
    requires
        loops_in_range(loops@.map_values(|x: Vec<usize>| x@), positions@.len() as int),
    ensures
        r.positions@ == positions@,
        kept_indices(positions@.map_values(|q: [i32; 2]| q@), loops@.map_values(|x: Vec<usize>| x@), faces@, r.indices@),
{
    let ghost lv = loops@.map_values(|x: Vec<usize>| x@);
    let ghost pv = positions@.map_values(|q: [i32; 2]| q@);
    let mut indices: Vec<u32> = Vec::new();
    let mut k: usize = 0;
    assert(faces@.subrange(0, 0) =~= Seq::<Face>::empty());
    while k < faces.len()
        invariant
            lv == loops@.map_values(|x: Vec<usize>| x@),
            pv == positions@.map_values(|q: [i32; 2]| q@),
            loops_in_range(lv, positions@.len() as int),
            0 <= k <= faces@.len(),
            kept_indices(pv, lv, faces@.subrange(0, k as int), indices@),
        decreases faces@.len() - k,
    {
        let f = faces[k];
        assert(faces@.subrange(0, k + 1).drop_last() =~= faces@.subrange(0, k as int));
        assert(faces@.subrange(0, k + 1).last() == f);
        keep_face(loops, &positions, f, &mut indices);
        k = k + 1;
    }
    assert(faces@.subrange(0, faces@.len() as int) =~= faces@);
    FloorMesh { positions, indices }
}

} // verus!
