//! Wall quads for 3D mode. One-sided linedefs become a single full-height
//! wall; two-sided linedefs become up to two step quads (lower and upper)
//! where the neighbouring sector heights differ.

use vstd::prelude::*;

use crate::map::{MapData, MapLinedef, SectorId, SidedefId};

verus! {

#[derive(Clone, Copy, Debug, PartialEq, Eq, Structural)]
pub enum WallKind {
    /// Full wall on a one-sided linedef.
    Solid,
    /// Step-up between two sectors with different floor heights.
    Lower,
    /// Step-down between two sectors with different ceiling heights.
    Upper,
}

#[derive(Clone, Copy, Debug)]
pub struct Wall {
    pub kind: WallKind,
    /// Sector this wall faces into (used to pick light and colour).
    pub facing_sector: SectorId,
    /// Sidedef whose texture the wall shows (slot chosen by `kind`).
    pub sidedef: SidedefId,
    /// World-space quad in (x, y, z) order: bottom-left, bottom-right,
    /// top-right, top-left.
    pub quad: [[i32; 3]; 4],
}

/// What a wall is made of: kind, facing sector, sidedef, the two floor-plan
/// end points and the bottom and top heights.
pub struct WallSpec {
    pub kind: WallKind,
    pub facing: SectorId,
    pub side: SidedefId,
    pub p_bot: (i32, i32),
    pub p_top: (i32, i32),
    pub z_bot: i32,
    pub z_top: i32,
}

/// `q` is the quad standing on the segment from `p_bot` to `p_top`, from
/// height `z_bot` up to `z_top`.
pub open spec fn is_quad(q: [[i32; 3]; 4], p_bot: (i32, i32), p_top: (i32, i32), z_bot: i32, z_top: i32) -> bool {
    &&& q@.len() == 4
    &&& q@[0]@ == seq![p_bot.0, p_bot.1, z_bot]
    &&& q@[1]@ == seq![p_top.0, p_top.1, z_bot]
    &&& q@[2]@ == seq![p_top.0, p_top.1, z_top]
    &&& q@[3]@ == seq![p_bot.0, p_bot.1, z_top]
}

pub open spec fn wall_is(w: Wall, s: WallSpec) -> bool {
    &&& w.kind == s.kind
    &&& w.facing_sector == s.facing
    &&& w.sidedef == s.side
    &&& is_quad(w.quad, s.p_bot, s.p_top, s.z_bot, s.z_top)
}

/// The walls one linedef produces, in emission order.
pub open spec fn line_walls(map: &MapData, line: MapLinedef) -> Seq<WallSpec> {
    match (map.vertex_at(line.v1), map.vertex_at(line.v2)) {
        (Some(v1), Some(v2)) => {
            let p1 = (v1.x, v1.y);
            let p2 = (v2.x, v2.y);
            match (map.side_sector(line.right), map.side_sector(line.left)) {
                (Some(rs), None) => match map.sector_at(rs) {
                    Some(sec) => seq![WallSpec { kind: WallKind::Solid, facing: rs, side: line.right->0,
                        p_bot: p1, p_top: p2, z_bot: sec.floor_height as i32, z_top: sec.ceiling_height as i32 }],
                    None => Seq::empty(),
                },
                (None, Some(ls)) => match map.sector_at(ls) {
                    Some(sec) => seq![WallSpec { kind: WallKind::Solid, facing: ls, side: line.left->0,
                        p_bot: p2, p_top: p1, z_bot: sec.floor_height as i32, z_top: sec.ceiling_height as i32 }],
                    None => Seq::empty(),
                },
                (Some(rs), Some(ls)) => match (map.sector_at(rs), map.sector_at(ls)) {
                    (Some(r), Some(l)) => {
                        let lower: Seq<WallSpec> = if r.floor_height < l.floor_height {
                            seq![WallSpec { kind: WallKind::Lower, facing: ls, side: line.left->0,
                                p_bot: p2, p_top: p1, z_bot: r.floor_height as i32, z_top: l.floor_height as i32 }]
                        } else if l.floor_height < r.floor_height {
                            seq![WallSpec { kind: WallKind::Lower, facing: rs, side: line.right->0,
                                p_bot: p1, p_top: p2, z_bot: l.floor_height as i32, z_top: r.floor_height as i32 }]
                        } else {
                            Seq::empty()
                        };
                        let upper: Seq<WallSpec> = if r.ceiling_height > l.ceiling_height {
                            seq![WallSpec { kind: WallKind::Upper, facing: ls, side: line.left->0,
                                p_bot: p2, p_top: p1, z_bot: l.ceiling_height as i32, z_top: r.ceiling_height as i32 }]
                        } else if l.ceiling_height > r.ceiling_height {
                            seq![WallSpec { kind: WallKind::Upper, facing: rs, side: line.right->0,
                                p_bot: p1, p_top: p2, z_bot: r.ceiling_height as i32, z_top: l.ceiling_height as i32 }]
                        } else {
                            Seq::empty()
                        };
                        lower + upper
                    },
                    _ => Seq::empty(),
                },
                (None, None) => Seq::empty(),
            }
        },
        _ => Seq::empty(),
    }
}

/// The walls of the first `k` linedef slots, in slot order.
pub open spec fn walls_upto(map: &MapData, k: int) -> Seq<WallSpec>
    decreases k,
{
    if k <= 0 {
        Seq::empty()
    } else {
        walls_upto(map, k - 1) + match crate::map::slot(map.linedefs@, k - 1) {
            Some(line) => line_walls(map, line),
            None => Seq::empty(),
        }
    }
}

/// A wall shows one of the line's own sidedefs, faces the sector of that
/// sidedef, and a step wall rises from its lower height to its higher one.
pub open spec fn wall_fits(map: &MapData, line: MapLinedef, w: WallSpec) -> bool {
    &&& (line.right == Some(w.side) || line.left == Some(w.side))
    &&& map.side_sector(Some(w.side)) == Some(w.facing)
    &&& w.kind != WallKind::Solid ==> w.z_bot < w.z_top
}

/// A linedef gives at most two walls, none when one of its vertices is
/// missing, and each fits the line.
pub proof fn lemma_line_walls(map: &MapData, line: MapLinedef)
    ensures
        line_walls(map, line).len() <= 2,
        map.vertex_at(line.v1) is None || map.vertex_at(line.v2) is None ==> line_walls(map, line).len() == 0,
        forall|k: int| 0 <= k < line_walls(map, line).len() ==> wall_fits(map, line, #[trigger] line_walls(map, line)[k]),
{
    let ws = line_walls(map, line);
    assert forall|k: int| 0 <= k < ws.len() implies wall_fits(map, line, #[trigger] ws[k]) by {
        if ws.len() == 2 && k == 1 {
            assert(ws[k].kind == WallKind::Upper);
        }
    }
}

/// A line with a sector on its right side only, both vertices present and
/// that sector existing, has exactly one wall: a solid wall from the
/// sector's floor to its ceiling, facing it and showing the right sidedef,
/// from the first vertex to the second. Mirrored for the left side only.
pub proof fn lemma_solid_walls(map: &MapData, line: MapLinedef)
    requires
        map.vertex_at(line.v1) is Some,
        map.vertex_at(line.v2) is Some,
    ensures
        ({
            let ws = line_walls(map, line);
            let p1 = (map.vertex_at(line.v1)->0.x, map.vertex_at(line.v1)->0.y);
            let p2 = (map.vertex_at(line.v2)->0.x, map.vertex_at(line.v2)->0.y);
            let rs = map.side_sector(line.right)->0;
            let ls = map.side_sector(line.left)->0;
            &&& map.side_sector(line.right) is Some && map.side_sector(line.left) is None && map.sector_at(rs) is Some
                ==> ws == (seq![WallSpec { kind: WallKind::Solid, facing: rs, side: line.right->0, p_bot: p1, p_top: p2,
                    z_bot: map.sector_at(rs)->0.floor_height as i32, z_top: map.sector_at(rs)->0.ceiling_height as i32 }])
            &&& map.side_sector(line.left) is Some && map.side_sector(line.right) is None && map.sector_at(ls) is Some
                ==> ws == (seq![WallSpec { kind: WallKind::Solid, facing: ls, side: line.left->0, p_bot: p2, p_top: p1,
                    z_bot: map.sector_at(ls)->0.floor_height as i32, z_top: map.sector_at(ls)->0.ceiling_height as i32 }])
            &&& map.side_sector(line.left) is None && map.side_sector(line.right) is None ==> ws.len() == 0
        }),
{
}

/// Steps on a two-sided line whose vertices and two sectors exist. Where the
/// floors differ there is exactly one lower wall: from the lower floor to
/// the higher one, facing the sector with the higher floor and showing that
/// side's sidedef; none where they are equal. Where the ceilings differ
/// there is exactly one upper wall: from the lower ceiling to the higher
/// one, facing the sector with the lower ceiling; none where they are
/// equal. Such a line has no solid wall.
pub proof fn lemma_step_walls(map: &MapData, line: MapLinedef)
    requires
        map.vertex_at(line.v1) is Some,
        map.vertex_at(line.v2) is Some,
        map.side_sector(line.right) is Some,
        map.side_sector(line.left) is Some,
        map.sector_at(map.side_sector(line.right)->0) is Some,
        map.sector_at(map.side_sector(line.left)->0) is Some,
    ensures
        ({
            let ws = line_walls(map, line);
            let p1 = (map.vertex_at(line.v1)->0.x, map.vertex_at(line.v1)->0.y);
            let p2 = (map.vertex_at(line.v2)->0.x, map.vertex_at(line.v2)->0.y);
            let rs = map.side_sector(line.right)->0;
            let ls = map.side_sector(line.left)->0;
            let rf = map.sector_at(rs)->0.floor_height as i32;
            let lf = map.sector_at(ls)->0.floor_height as i32;
            let rc = map.sector_at(rs)->0.ceiling_height as i32;
            let lc = map.sector_at(ls)->0.ceiling_height as i32;
            &&& forall|k: int| 0 <= k < ws.len() ==> (#[trigger] ws[k]).kind != WallKind::Solid
            &&& forall|a: int, b: int|
                0 <= a < ws.len() && 0 <= b < ws.len() && (#[trigger] ws[a]).kind == WallKind::Lower && (#[trigger] ws[b]).kind
                    == WallKind::Lower ==> a == b
            &&& forall|a: int, b: int|
                0 <= a < ws.len() && 0 <= b < ws.len() && (#[trigger] ws[a]).kind == WallKind::Upper && (#[trigger] ws[b]).kind
                    == WallKind::Upper ==> a == b
            &&& rf == lf ==> forall|k: int| 0 <= k < ws.len() ==> (#[trigger] ws[k]).kind != WallKind::Lower
            &&& rc == lc ==> forall|k: int| 0 <= k < ws.len() ==> (#[trigger] ws[k]).kind != WallKind::Upper
            &&& lf < rf ==> exists|k: int|
                0 <= k < ws.len() && (#[trigger] ws[k]) == (WallSpec { kind: WallKind::Lower, facing: rs, side: line.right->0,
                    p_bot: p1, p_top: p2, z_bot: lf, z_top: rf })
            &&& rf < lf ==> exists|k: int|
                0 <= k < ws.len() && (#[trigger] ws[k]) == (WallSpec { kind: WallKind::Lower, facing: ls, side: line.left->0,
                    p_bot: p2, p_top: p1, z_bot: rf, z_top: lf })
            &&& rc < lc ==> exists|k: int|
                0 <= k < ws.len() && (#[trigger] ws[k]) == (WallSpec { kind: WallKind::Upper, facing: rs, side: line.right->0,
                    p_bot: p1, p_top: p2, z_bot: rc, z_top: lc })
            &&& lc < rc ==> exists|k: int|
                0 <= k < ws.len() && (#[trigger] ws[k]) == (WallSpec { kind: WallKind::Upper, facing: ls, side: line.left->0,
                    p_bot: p2, p_top: p1, z_bot: lc, z_top: rc })
        }),
{
    let ws = line_walls(map, line);
    let rs = map.side_sector(line.right)->0;
    let ls = map.side_sector(line.left)->0;
    let r = map.sector_at(rs)->0;
    let l = map.sector_at(ls)->0;
    let lower_n: int = if r.floor_height != l.floor_height { 1 } else { 0 };
    let upper_n: int = if r.ceiling_height != l.ceiling_height { 1 } else { 0 };
    assert(ws.len() == lower_n + upper_n);
    assert forall|k: int| 0 <= k < ws.len() implies (#[trigger] ws[k]).kind == (if k < lower_n { WallKind::Lower } else {
        WallKind::Upper
    }) by {}
    if lower_n == 1 {
        assert(ws[0].kind == WallKind::Lower);
    }
    if upper_n == 1 {
        assert(ws[lower_n].kind == WallKind::Upper);
    }
}

/// The walls of the first `k` linedef slots: at most two per slot, each
/// facing the sector of the sidedef it shows.
pub proof fn lemma_walls_upto(map: &MapData, k: int)
    requires
        0 <= k,
    ensures
        walls_upto(map, k).len() <= 2 * k,
        forall|j: int|
            0 <= j < walls_upto(map, k).len() ==> map.side_sector(Some((#[trigger] walls_upto(map, k)[j]).side)) == Some(
                walls_upto(map, k)[j].facing,
            ),
    decreases k,
{
    if k > 0 {
        lemma_walls_upto(map, k - 1);
        let prev = walls_upto(map, k - 1);
        let add = match crate::map::slot(map.linedefs@, k - 1) {
            Some(line) => line_walls(map, line),
            None => Seq::empty(),
        };
        if let Some(line) = crate::map::slot(map.linedefs@, k - 1) {
            lemma_line_walls(map, line);
        }
        let cur = walls_upto(map, k);
        assert(cur == prev + add);
        assert forall|j: int| 0 <= j < cur.len() implies map.side_sector(Some((#[trigger] cur[j]).side)) == Some(cur[j].facing) by {
            if j < prev.len() {
                assert(cur[j] == prev[j]);
            } else {
                assert(cur[j] == add[j - prev.len()]);
            }
        }
    }
}

/// `ws` are exactly the walls described by `specs`, one for one.
pub open spec fn walls_are(ws: Seq<Wall>, specs: Seq<WallSpec>) -> bool {
    &&& ws.len() == specs.len()
    &&& forall|k: int| 0 <= k < ws.len() ==> wall_is(#[trigger] ws[k], specs[k])
}

fn quad(p_bot: (i32, i32), p_top: (i32, i32), z_bot: i32, z_top: i32) -> (q: [[i32; 3]; 4])
    ensures
        is_quad(q, p_bot, p_top, z_bot, z_top),
{
    let q = [
        [p_bot.0, p_bot.1, z_bot],
        [p_top.0, p_top.1, z_bot],
        [p_top.0, p_top.1, z_top],
        [p_bot.0, p_bot.1, z_top],
    ];
    assert(q@[0]@ =~= seq![p_bot.0, p_bot.1, z_bot]);
    assert(q@[1]@ =~= seq![p_top.0, p_top.1, z_bot]);
    assert(q@[2]@ =~= seq![p_top.0, p_top.1, z_top]);
    assert(q@[3]@ =~= seq![p_bot.0, p_bot.1, z_top]);
    q
}

fn emit(out: &mut Vec<Wall>, kind: WallKind, facing: SectorId, side: SidedefId, p_bot: (i32, i32), p_top: (i32, i32), z_bot: i32, z_top: i32)
    ensures
        final(out)@.len() == old(out)@.len() + 1,
        final(out)@.drop_last() == old(out)@,
        wall_is(final(out)@.last(), WallSpec { kind, facing, side, p_bot, p_top, z_bot, z_top }),
{
    let q = quad(p_bot, p_top, z_bot, z_top);
    out.push(Wall { kind, facing_sector: facing, sidedef: side, quad: q });
    assert(out@.drop_last() =~= old(out)@);
}

fn emit_walls_for_linedef(map: &MapData, line: &MapLinedef, out: &mut Vec<Wall>)
    ensures
        final(out)@.len() >= old(out)@.len(),
        final(out)@.subrange(0, old(out)@.len() as int) == old(out)@,
        walls_are(final(out)@.subrange(old(out)@.len() as int, final(out)@.len() as int), line_walls(map, *line)),
{
    let ghost start = out@;
    let ghost specs = line_walls(map, *line);
    let v1 = match map.vertex(line.v1) {
        Some(v) => v,
        None => {
            assert(out@.subrange(start.len() as int, out@.len() as int) =~= Seq::<Wall>::empty());
            assert(out@.subrange(0, start.len() as int) =~= start);
            return;
        },
    };
    let v2 = match map.vertex(line.v2) {
        Some(v) => v,
        None => {
            assert(out@.subrange(start.len() as int, out@.len() as int) =~= Seq::<Wall>::empty());
            assert(out@.subrange(0, start.len() as int) =~= start);
            return;
        },
    };
    let p1 = (v1.x, v1.y);
    let p2 = (v2.x, v2.y);
    let right_sector = map.side_sector_of(line.right);
    let left_sector = map.side_sector_of(line.left);
    match (right_sector, left_sector) {
        (Some(rs), None) => {
            if let (Some(sec), Some(rside)) = (map.sector(rs), line.right) {
                emit(out, WallKind::Solid, rs, rside, p1, p2, sec.floor_height as i32, sec.ceiling_height as i32);
            }
        },
        (None, Some(ls)) => {
            if let (Some(sec), Some(lside)) = (map.sector(ls), line.left) {
                emit(out, WallKind::Solid, ls, lside, p2, p1, sec.floor_height as i32, sec.ceiling_height as i32);
            }
        },
        (Some(rs), Some(ls)) => {
            if let (Some(rsec), Some(lsec)) = (map.sector(rs), map.sector(ls)) {
                let rside = line.right.unwrap();
                let lside = line.left.unwrap();
                if rsec.floor_height < lsec.floor_height {
                    emit(out, WallKind::Lower, ls, lside, p2, p1, rsec.floor_height as i32, lsec.floor_height as i32);
                } else if lsec.floor_height < rsec.floor_height {
                    emit(out, WallKind::Lower, rs, rside, p1, p2, lsec.floor_height as i32, rsec.floor_height as i32);
                }
                let ghost mid = out@;
                if rsec.ceiling_height > lsec.ceiling_height {
                    emit(out, WallKind::Upper, ls, lside, p2, p1, lsec.ceiling_height as i32, rsec.ceiling_height as i32);
                } else if lsec.ceiling_height > rsec.ceiling_height {
                    emit(out, WallKind::Upper, rs, rside, p1, p2, rsec.ceiling_height as i32, lsec.ceiling_height as i32);
                }
                assert(out@.subrange(0, mid.len() as int) =~= mid);
            }
        },
        (None, None) => {},
    }
    assert(out@.subrange(0, start.len() as int) =~= start);
    let ghost added = out@.subrange(start.len() as int, out@.len() as int);
    assert forall|k: int| 0 <= k < added.len() implies wall_is(#[trigger] added[k], specs[k]) by {
        assert(added[k] == out@[start.len() + k]);
    }
}

/// Wall quads of every linedef, in linedef slot order.
pub fn build_walls(map: &MapData) -> (r: Vec<Wall>)
    ensures
        walls_are(r@, walls_upto(map, map.linedefs@.len() as int)),
        r@.len() <= 2 * map.linedefs@.len(),
        forall|k: int| 0 <= k < r@.len() ==> map.side_sector(Some((#[trigger] r@[k]).sidedef)) == Some(r@[k].facing_sector),
{
    let mut out: Vec<Wall> = Vec::new();
    let mut j: usize = 0;
    while j < map.linedefs.len()
        invariant
            0 <= j <= map.linedefs@.len(),
            walls_are(out@, walls_upto(map, j as int)),
        decreases map.linedefs@.len() - j,
    {
        let ghost before = out@;
        let ghost specs = walls_upto(map, j as int);
        if let Some(line) = &map.linedefs[j] {
            emit_walls_for_linedef(map, line, &mut out);
            let ghost added = out@.subrange(before.len() as int, out@.len() as int);
            let ghost lw = line_walls(map, *line);
            assert(walls_upto(map, j + 1) == specs + lw);
            assert forall|k: int| 0 <= k < out@.len() implies wall_is(#[trigger] out@[k], (specs + lw)[k]) by {
                if k < before.len() {
                    assert(out@[k] == out@.subrange(0, before.len() as int)[k]);
                } else {
                    assert(out@[k] == added[k - before.len()]);
                }
            }
        } else {
            assert(walls_upto(map, j + 1) =~= specs);
        }
        j = j + 1;
    }
    proof {
        lemma_walls_upto(map, map.linedefs@.len() as int);
        let ws = walls_upto(map, map.linedefs@.len() as int);
        assert forall|k: int| 0 <= k < out@.len() implies map.side_sector(Some((#[trigger] out@[k]).sidedef)) == Some(
            out@[k].facing_sector,
        ) by {
            assert(wall_is(out@[k], ws[k]));
        }
    }
    out
}

} // verus!
