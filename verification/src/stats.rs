//! Map statistics: the element counts shown for a loaded map, the line,
//! sector and thing breakdown of the statistics panel, the table of tags in
//! use, and the bounds of the map.

use vstd::prelude::*;

use crate::map::{MapData, MapLinedef, MapSector, MapThing, SectorId};
use crate::mesh::FloorMesh;

verus! {

// ---------------------------------------------------------------------------
// Element counts.

/// How many vertices, linedefs, sidedefs, sectors and things a map holds.
#[derive(Clone, Copy, Debug, PartialEq, Eq, Structural)]
pub struct MapStats {
    pub vertices: usize,
    pub linedefs: usize,
    pub sidedefs: usize,
    pub sectors: usize,
    pub things: usize,
}

/// Number of occupied slots.
pub open spec fn live_count<T>(s: Seq<Option<T>>) -> nat
    decreases s.len(),
{
    if s.len() == 0 {
        0
    } else {
        live_count(s.drop_last()) + if s.last() is Some { 1nat } else { 0nat }
    }
}

fn count_live<T>(s: &Vec<Option<T>>) -> (n: usize)
    ensures
        n == live_count(s@),
{
    let mut n: usize = 0;
    let mut i: usize = 0;
    while i < s.len()
        invariant
            0 <= i <= s@.len(),
            n == live_count(s@.subrange(0, i as int)),
            n <= i,
        decreases s@.len() - i,
    {
        assert(s@.subrange(0, i + 1).drop_last() =~= s@.subrange(0, i as int));
        if s[i].is_some() {
            n = n + 1;
        }
        i = i + 1;
    }
    assert(s@.subrange(0, s@.len() as int) =~= s@);
    n
}

/// The element counts of a map: its occupied slots of each kind.
pub fn map_stats(map: &MapData) -> (st: MapStats)
    ensures
        st.vertices == live_count(map.vertices@),
        st.linedefs == live_count(map.linedefs@),
        st.sidedefs == live_count(map.sidedefs@),
        st.sectors == live_count(map.sectors@),
        st.things == live_count(map.things@),
{
    MapStats {
        vertices: count_live(&map.vertices),
        linedefs: count_live(&map.linedefs),
        sidedefs: count_live(&map.sidedefs),
        sectors: count_live(&map.sectors),
        things: count_live(&map.things),
    }
}

// ---------------------------------------------------------------------------
// Breakdown.

/// Linedefs by sides, special and tag.
#[derive(Clone, Copy, Debug, PartialEq, Eq, Structural)]
pub struct LineStats {
    pub one_sided: usize,
    pub two_sided: usize,
    pub with_special: usize,
    pub tagged: usize,
}

/// Sectors by special and tag, with the range of light and heights. With no
/// sectors the minima stay at `i32::MAX`, the maxima at `i32::MIN`, and the
/// average light is 0.
#[derive(Clone, Copy, Debug, PartialEq, Eq, Structural)]
pub struct SectorStats {
    pub count: usize,
    pub with_special: usize,
    pub tagged: usize,
    pub unique_tags: usize,
    pub light_min: i32,
    pub light_max: i32,
    pub light_avg: i32,
    pub floor_min: i32,
    pub floor_max: i32,
    pub ceiling_min: i32,
    pub ceiling_max: i32,
}

/// Things by the skill and multiplayer bits of their flags.
#[derive(Clone, Copy, Debug, PartialEq, Eq, Structural)]
pub struct ThingStats {
    pub count: usize,
    pub easy: usize,
    pub medium: usize,
    pub hard: usize,
    pub multiplayer: usize,
}

pub open spec fn min_i(a: int, b: int) -> int {
    if a <= b { a } else { b }
}

pub open spec fn max_i(a: int, b: int) -> int {
    if a >= b { a } else { b }
}

/// Line counts over the first `k` linedef slots: (one-sided, two-sided,
/// with special, tagged).
pub open spec fn line_counts(map: &MapData, k: int) -> (int, int, int, int)
    decreases k,
{
    if k <= 0 {
        (0, 0, 0, 0)
    } else {
        let (o, t, s, g) = line_counts(map, k - 1);
        match map.linedefs@[k - 1] {
            Some(l) => (
                o + if (l.right is Some) != (l.left is Some) { 1int } else { 0int },
                t + if l.right is Some && l.left is Some { 1int } else { 0int },
                s + if l.special != 0 { 1int } else { 0int },
                g + if l.tag != 0 { 1int } else { 0int },
            ),
            None => (o, t, s, g),
        }
    }
}

proof fn lemma_line_counts_filter(map: &MapData, k: int)
    requires
        0 <= k <= map.linedefs@.len(),
    ensures
        line_counts(map, k).0 == map.linedefs@.take(k).filter(
            |o: Option<MapLinedef>| o is Some && (o->0.right is Some) != (o->0.left is Some),
        ).len(),
        line_counts(map, k).1 == map.linedefs@.take(k).filter(
            |o: Option<MapLinedef>| o is Some && o->0.right is Some && o->0.left is Some,
        ).len(),
        line_counts(map, k).2 == map.linedefs@.take(k).filter(|o: Option<MapLinedef>| o is Some && o->0.special != 0).len(),
        line_counts(map, k).3 == map.linedefs@.take(k).filter(|o: Option<MapLinedef>| o is Some && o->0.tag != 0).len(),
    decreases k,
{
    if k > 0 {
        lemma_line_counts_filter(map, k - 1);
        let t = map.linedefs@.take(k - 1);
        let x = map.linedefs@[k - 1];
        assert(map.linedefs@.take(k) =~= t.push(x));
        t.lemma_filter_push(x, |o: Option<MapLinedef>| o is Some && (o->0.right is Some) != (o->0.left is Some));
        t.lemma_filter_push(x, |o: Option<MapLinedef>| o is Some && o->0.right is Some && o->0.left is Some);
        t.lemma_filter_push(x, |o: Option<MapLinedef>| o is Some && o->0.special != 0);
        t.lemma_filter_push(x, |o: Option<MapLinedef>| o is Some && o->0.tag != 0);
    } else {
        assert(map.linedefs@.take(0) =~= Seq::<Option<MapLinedef>>::empty());
    }
}

/// Line counts: `one_sided` counts the live lines with exactly one sidedef,
/// `two_sided` those with both, `with_special` those with a special and
/// `tagged` those with a tag.
pub fn line_stats(map: &MapData) -> (r: LineStats)
    ensures
        (r.one_sided as int, r.two_sided as int, r.with_special as int, r.tagged as int) == line_counts(
            map,
            map.linedefs@.len() as int,
        ),
        r.one_sided == map.linedefs@.filter(
            |o: Option<MapLinedef>| o is Some && (o->0.right is Some) != (o->0.left is Some),
        ).len(),
        r.two_sided == map.linedefs@.filter(|o: Option<MapLinedef>| o is Some && o->0.right is Some && o->0.left is Some).len(),
        r.with_special == map.linedefs@.filter(|o: Option<MapLinedef>| o is Some && o->0.special != 0).len(),
        r.tagged == map.linedefs@.filter(|o: Option<MapLinedef>| o is Some && o->0.tag != 0).len(),
{
    proof {
        lemma_line_counts_filter(map, map.linedefs@.len() as int);
        assert(map.linedefs@.take(map.linedefs@.len() as int) =~= map.linedefs@);
    }
    let mut r = LineStats { one_sided: 0, two_sided: 0, with_special: 0, tagged: 0 };
    let mut i: usize = 0;
    while i < map.linedefs.len()
        invariant
            0 <= i <= map.linedefs@.len(),
            (r.one_sided as int, r.two_sided as int, r.with_special as int, r.tagged as int) == line_counts(map, i as int),
            r.one_sided <= i && r.two_sided <= i && r.with_special <= i && r.tagged <= i,
        decreases map.linedefs@.len() - i,
    {
        if let Some(l) = map.linedefs[i] {
            if l.left.is_some() && l.right.is_some() {
                r.two_sided = r.two_sided + 1;
            } else if l.right.is_some() || l.left.is_some() {
                r.one_sided = r.one_sided + 1;
            }
            if l.special != 0 {
                r.with_special = r.with_special + 1;
            }
            if l.tag != 0 {
                r.tagged = r.tagged + 1;
            }
        }
        i = i + 1;
    }
    r
}

/// Thing counts over the first `k` thing slots: (count, easy, medium,
/// hard, multiplayer), by flag bits 0x01, 0x02, 0x04 and 0x10.
pub open spec fn thing_counts(map: &MapData, k: int) -> (int, int, int, int, int)
    decreases k,
{
    if k <= 0 {
        (0, 0, 0, 0, 0)
    } else {
        let (c, e, m, h, p) = thing_counts(map, k - 1);
        match map.things@[k - 1] {
            Some(t) => (
                c + 1,
                e + if t.flags & 1 != 0 { 1int } else { 0int },
                m + if t.flags & 2 != 0 { 1int } else { 0int },
                h + if t.flags & 4 != 0 { 1int } else { 0int },
                p + if t.flags & 16 != 0 { 1int } else { 0int },
            ),
            None => (c, e, m, h, p),
        }
    }
}

proof fn lemma_thing_counts_filter(map: &MapData, k: int)
    requires
        0 <= k <= map.things@.len(),
    ensures
        thing_counts(map, k).0 == map.things@.take(k).filter(|o: Option<MapThing>| o is Some).len(),
        thing_counts(map, k).1 == map.things@.take(k).filter(|o: Option<MapThing>| o is Some && o->0.flags & 1 != 0).len(),
        thing_counts(map, k).2 == map.things@.take(k).filter(|o: Option<MapThing>| o is Some && o->0.flags & 2 != 0).len(),
        thing_counts(map, k).3 == map.things@.take(k).filter(|o: Option<MapThing>| o is Some && o->0.flags & 4 != 0).len(),
        thing_counts(map, k).4 == map.things@.take(k).filter(|o: Option<MapThing>| o is Some && o->0.flags & 16 != 0).len(),
    decreases k,
{
    if k > 0 {
        lemma_thing_counts_filter(map, k - 1);
        let t = map.things@.take(k - 1);
        let x = map.things@[k - 1];
        assert(map.things@.take(k) =~= t.push(x));
        t.lemma_filter_push(x, |o: Option<MapThing>| o is Some);
        t.lemma_filter_push(x, |o: Option<MapThing>| o is Some && o->0.flags & 1 != 0);
        t.lemma_filter_push(x, |o: Option<MapThing>| o is Some && o->0.flags & 2 != 0);
        t.lemma_filter_push(x, |o: Option<MapThing>| o is Some && o->0.flags & 4 != 0);
        t.lemma_filter_push(x, |o: Option<MapThing>| o is Some && o->0.flags & 16 != 0);
    } else {
        assert(map.things@.take(0) =~= Seq::<Option<MapThing>>::empty());
    }
}

/// Thing counts: all live things, and those whose flags carry the easy
/// (0x01), medium (0x02), hard (0x04) and multiplayer (0x10) bits.
pub fn thing_stats(map: &MapData) -> (r: ThingStats)
    ensures
        (r.count as int, r.easy as int, r.medium as int, r.hard as int, r.multiplayer as int) == thing_counts(
            map,
            map.things@.len() as int,
        ),
        r.count == map.things@.filter(|o: Option<MapThing>| o is Some).len(),
        r.easy == map.things@.filter(|o: Option<MapThing>| o is Some && o->0.flags & 1 != 0).len(),
        r.medium == map.things@.filter(|o: Option<MapThing>| o is Some && o->0.flags & 2 != 0).len(),
        r.hard == map.things@.filter(|o: Option<MapThing>| o is Some && o->0.flags & 4 != 0).len(),
        r.multiplayer == map.things@.filter(|o: Option<MapThing>| o is Some && o->0.flags & 16 != 0).len(),
{
    proof {
        lemma_thing_counts_filter(map, map.things@.len() as int);
        assert(map.things@.take(map.things@.len() as int) =~= map.things@);
    }
    let mut r = ThingStats { count: 0, easy: 0, medium: 0, hard: 0, multiplayer: 0 };
    let mut i: usize = 0;
    while i < map.things.len()
        invariant
            0 <= i <= map.things@.len(),
            (r.count as int, r.easy as int, r.medium as int, r.hard as int, r.multiplayer as int) == thing_counts(map, i as int),
            r.count <= i && r.easy <= i && r.medium <= i && r.hard <= i && r.multiplayer <= i,
        decreases map.things@.len() - i,
    {
        if let Some(t) = map.things[i] {
            r.count = r.count + 1;
            if t.flags & 1 != 0 {
                r.easy = r.easy + 1;
            }
            if t.flags & 2 != 0 {
                r.medium = r.medium + 1;
            }
            if t.flags & 4 != 0 {
                r.hard = r.hard + 1;
            }
            if t.flags & 16 != 0 {
                r.multiplayer = r.multiplayer + 1;
            }
        }
        i = i + 1;
    }
    r
}

pub open spec fn add_tag(s: Seq<u16>, t: u16) -> Seq<u16> {
    if t == 0 || s.contains(t) {
        s
    } else {
        s.push(t)
    }
}

/// Sector figures over the first `k` sector slots: (count, with special,
/// tagged, light sum, light min, light max, floor min, floor max, ceiling
/// min, ceiling max), minima from `i32::MAX` and maxima from `i32::MIN`.
pub open spec fn sector_counts(map: &MapData, k: int) -> (int, int, int, int, int, int, int, int, int, int)
    decreases k,
{
    if k <= 0 {
        (0, 0, 0, 0, i32::MAX as int, i32::MIN as int, i32::MAX as int, i32::MIN as int, i32::MAX as int, i32::MIN as int)
    } else {
        let p = sector_counts(map, k - 1);
        match map.sectors@[k - 1] {
            Some(s) => (
                p.0 + 1,
                p.1 + if s.special != 0 { 1int } else { 0int },
                p.2 + if s.tag != 0 { 1int } else { 0int },
                p.3 + s.light,
                min_i(p.4, s.light as int),
                max_i(p.5, s.light as int),
                min_i(p.6, s.floor_height as int),
                max_i(p.7, s.floor_height as int),
                min_i(p.8, s.ceiling_height as int),
                max_i(p.9, s.ceiling_height as int),
            ),
            None => p,
        }
    }
}

/// Distinct non-zero sector tags of the first `k` sector slots, in order
/// of first use.
pub open spec fn sector_tags(map: &MapData, k: int) -> Seq<u16>
    decreases k,
{
    if k <= 0 {
        Seq::empty()
    } else {
        let prev = sector_tags(map, k - 1);
        match map.sectors@[k - 1] {
            Some(s) => add_tag(prev, s.tag),
            None => prev,
        }
    }
}

/// `a / b` rounded toward zero, as Rust divides integers.
pub open spec fn trunc_div(a: int, b: int) -> int {
    if a >= 0 {
        a / b
    } else {
        -((-a) / b)
    }
}

/// The sector statistics of a map.
pub open spec fn sector_stats_spec(map: &MapData, r: SectorStats) -> bool {
    let c = sector_counts(map, map.sectors@.len() as int);
    &&& r.count == c.0
    &&& r.with_special == c.1
    &&& r.tagged == c.2
    &&& r.unique_tags == sector_tags(map, map.sectors@.len() as int).len()
    &&& r.light_avg == if c.0 == 0 { 0 } else { trunc_div(c.3, c.0) }
    &&& r.light_min == c.4
    &&& r.light_max == c.5
    &&& r.floor_min == c.6
    &&& r.floor_max == c.7
    &&& r.ceiling_min == c.8
    &&& r.ceiling_max == c.9
}

fn push_tag(tags: &mut Vec<u16>, t: u16)
    ensures
        final(tags)@ == add_tag(old(tags)@, t),
{
    if t == 0 {
        return;
    }
    let mut i: usize = 0;
    while i < tags.len()
        invariant
            0 <= i <= tags@.len(),
            tags@ == old(tags)@,
            forall|j: int| 0 <= j < i ==> tags@[j] != t,
        decreases tags@.len() - i,
    {
        if tags[i] == t {
            assert(tags@.contains(t));
            return;
        }
        i = i + 1;
    }
    tags.push(t);
}

proof fn lemma_tags_bounded(map: &MapData, k: int)
    requires
        0 <= k,
    ensures
        sector_tags(map, k).len() <= k,
    decreases k,
{
    if k > 0 {
        lemma_tags_bounded(map, k - 1);
    }
}

proof fn lemma_sector_counts_laws(map: &MapData, k: int)
    requires
        0 <= k <= map.sectors@.len(),
    ensures
        ({
            let c = sector_counts(map, k);
            let t = map.sectors@.take(k);
            &&& c.0 == t.filter(|o: Option<MapSector>| o is Some).len()
            &&& c.1 == t.filter(|o: Option<MapSector>| o is Some && o->0.special != 0).len()
            &&& c.2 == t.filter(|o: Option<MapSector>| o is Some && o->0.tag != 0).len()
            &&& forall|i: int|
                0 <= i < k && #[trigger] map.sectors@[i] is Some ==> c.4 <= map.sectors@[i]->0.light <= c.5 && c.6
                    <= map.sectors@[i]->0.floor_height <= c.7 && c.8 <= map.sectors@[i]->0.ceiling_height <= c.9
            &&& c.0 > 0 ==> exists|i: int| 0 <= i < k && #[trigger] map.sectors@[i] is Some && map.sectors@[i]->0.light == c.4
            &&& c.0 > 0 ==> exists|i: int| 0 <= i < k && #[trigger] map.sectors@[i] is Some && map.sectors@[i]->0.light == c.5
            &&& c.0 > 0 ==> exists|i: int|
                0 <= i < k && #[trigger] map.sectors@[i] is Some && map.sectors@[i]->0.floor_height == c.6
            &&& c.0 > 0 ==> exists|i: int|
                0 <= i < k && #[trigger] map.sectors@[i] is Some && map.sectors@[i]->0.floor_height == c.7
            &&& c.0 > 0 ==> exists|i: int|
                0 <= i < k && #[trigger] map.sectors@[i] is Some && map.sectors@[i]->0.ceiling_height == c.8
            &&& c.0 > 0 ==> exists|i: int|
                0 <= i < k && #[trigger] map.sectors@[i] is Some && map.sectors@[i]->0.ceiling_height == c.9
            &&& c.0 == 0 ==> c.4 == i32::MAX && c.5 == i32::MIN && c.6 == i32::MAX && c.7 == i32::MIN && c.8 == i32::MAX
                && c.9 == i32::MIN
        }),
    decreases k,
{
    if k > 0 {
        lemma_sector_counts_laws(map, k - 1);
        let t = map.sectors@.take(k - 1);
        let x = map.sectors@[k - 1];
        assert(map.sectors@.take(k) =~= t.push(x));
        t.lemma_filter_push(x, |o: Option<MapSector>| o is Some);
        t.lemma_filter_push(x, |o: Option<MapSector>| o is Some && o->0.special != 0);
        t.lemma_filter_push(x, |o: Option<MapSector>| o is Some && o->0.tag != 0);
        let p = sector_counts(map, k - 1);
        if x is Some {
            assert(map.sectors@[k - 1] is Some);
        }
    } else {
        assert(map.sectors@.take(0) =~= Seq::<Option<MapSector>>::empty());
    }
}

/// Sector statistics: `count`, `with_special` and `tagged` count the live
/// sectors, those with a special and those with a tag; each minimum and
/// maximum of light, floor and ceiling height bounds every live sector's
/// value and is the value of one of them (with no sectors the minima stay at
/// `i32::MAX` and the maxima at `i32::MIN`).
pub fn sector_stats(map: &MapData) -> (r: SectorStats)
    ensures
        sector_stats_spec(map, r),
        r.count == map.sectors@.filter(|o: Option<MapSector>| o is Some).len(),
        r.with_special == map.sectors@.filter(|o: Option<MapSector>| o is Some && o->0.special != 0).len(),
        r.tagged == map.sectors@.filter(|o: Option<MapSector>| o is Some && o->0.tag != 0).len(),
        forall|i: int|
            0 <= i < map.sectors@.len() && #[trigger] map.sectors@[i] is Some ==> r.light_min <= map.sectors@[i]->0.light
                <= r.light_max && r.floor_min <= map.sectors@[i]->0.floor_height <= r.floor_max && r.ceiling_min
                <= map.sectors@[i]->0.ceiling_height <= r.ceiling_max,
        r.count > 0 ==> exists|i: int|
            0 <= i < map.sectors@.len() && #[trigger] map.sectors@[i] is Some && map.sectors@[i]->0.light == r.light_min,
        r.count > 0 ==> exists|i: int|
            0 <= i < map.sectors@.len() && #[trigger] map.sectors@[i] is Some && map.sectors@[i]->0.light == r.light_max,
        r.count > 0 ==> exists|i: int|
            0 <= i < map.sectors@.len() && #[trigger] map.sectors@[i] is Some && map.sectors@[i]->0.floor_height == r.floor_min,
        r.count > 0 ==> exists|i: int|
            0 <= i < map.sectors@.len() && #[trigger] map.sectors@[i] is Some && map.sectors@[i]->0.floor_height == r.floor_max,
        r.count > 0 ==> exists|i: int|
            0 <= i < map.sectors@.len() && #[trigger] map.sectors@[i] is Some && map.sectors@[i]->0.ceiling_height == r.ceiling_min,
        r.count > 0 ==> exists|i: int|
            0 <= i < map.sectors@.len() && #[trigger] map.sectors@[i] is Some && map.sectors@[i]->0.ceiling_height == r.ceiling_max,
        r.count == 0 ==> r.light_min == i32::MAX && r.light_max == i32::MIN && r.floor_min == i32::MAX && r.floor_max == i32::MIN
            && r.ceiling_min == i32::MAX && r.ceiling_max == i32::MIN,
{
    proof {
        lemma_sector_counts_laws(map, map.sectors@.len() as int);
        assert(map.sectors@.take(map.sectors@.len() as int) =~= map.sectors@);
    }
    let mut count: usize = 0;
    let mut with_special: usize = 0;
    let mut tagged: usize = 0;
    let mut sum: i128 = 0;
    let mut lmin: i32 = i32::MAX;
    let mut lmax: i32 = i32::MIN;
    let mut fmin: i32 = i32::MAX;
    let mut fmax: i32 = i32::MIN;
    let mut cmin: i32 = i32::MAX;
    let mut cmax: i32 = i32::MIN;
    let mut tags: Vec<u16> = Vec::new();
    let mut i: usize = 0;
    while i < map.sectors.len()
        invariant
            0 <= i <= map.sectors@.len(),
            (count as int, with_special as int, tagged as int, sum as int, lmin as int, lmax as int, fmin as int, fmax as int,
                cmin as int, cmax as int) == sector_counts(map, i as int),
            count <= i && with_special <= i && tagged <= i,
            -32768 * (count as int) <= sum <= 32767 * (count as int),
            tags@ == sector_tags(map, i as int),
        decreases map.sectors@.len() - i,
    {
        if let Some(s) = &map.sectors[i] {
            count = count + 1;
            if s.special != 0 {
                with_special = with_special + 1;
            }
            if s.tag != 0 {
                tagged = tagged + 1;
            }
            sum = sum + s.light as i128;
            let l = s.light as i32;
            if l < lmin {
                lmin = l;
            }
            if l > lmax {
                lmax = l;
            }
            let f = s.floor_height as i32;
            if f < fmin {
                fmin = f;
            }
            if f > fmax {
                fmax = f;
            }
            let c = s.ceiling_height as i32;
            if c < cmin {
                cmin = c;
            }
            if c > cmax {
                cmax = c;
            }
            push_tag(&mut tags, s.tag);
        }
        i = i + 1;
    }
    let avg: i128 = if count == 0 {
        0
    } else if sum >= 0 {
        sum / (count as i128)
    } else {
        -((-sum) / (count as i128))
    };
    proof {
        lemma_tags_bounded(map, map.sectors@.len() as int);
        if count > 0 {
            let su = sum as int;
            let c = count as int;
            let n = i as int;
            let a = avg as int;
            assert(a == trunc_div(su, c));
            if su >= 0 {
                vstd::arithmetic::div_mod::lemma_div_is_ordered(su, 32767 * c, c);
                vstd::arithmetic::div_mod::lemma_div_multiples_vanish(32767, c);
                assert(32767 * c == c * 32767) by (nonlinear_arith);
                assert(0 <= su / c) by (nonlinear_arith)
                    requires
                        su >= 0,
                        c >= 1,
                ;
            } else {
                vstd::arithmetic::div_mod::lemma_div_is_ordered(-su, 32768 * c, c);
                vstd::arithmetic::div_mod::lemma_div_multiples_vanish(32768, c);
                assert(32768 * c == c * 32768) by (nonlinear_arith);
                assert(0 <= (-su) / c) by (nonlinear_arith)
                    requires
                        -su > 0,
                        c >= 1,
                ;
            }
        }
    }
    SectorStats {
        count,
        with_special,
        tagged,
        unique_tags: tags.len(),
        light_min: lmin,
        light_max: lmax,
        light_avg: avg as i32,
        floor_min: fmin,
        floor_max: fmax,
        ceiling_min: cmin,
        ceiling_max: cmax,
    }
}


// ---------------------------------------------------------------------------
// Tags in use.

/// How many sectors, lines and things use a tag (things by their tid).
#[derive(Clone, Copy, Debug, PartialEq, Eq, Structural)]
pub struct TagUse {
    pub tag: u16,
    pub sectors: usize,
    pub lines: usize,
    pub things: usize,
}

pub open spec fn sector_tag_count(map: &MapData, t: u16, k: int) -> int
    decreases k,
{
    if k <= 0 {
        0
    } else {
        sector_tag_count(map, t, k - 1) + match map.sectors@[k - 1] {
            Some(s) => if s.tag == t { 1int } else { 0int },
            None => 0int,
        }
    }
}

pub open spec fn line_tag_count(map: &MapData, t: u16, k: int) -> int
    decreases k,
{
    if k <= 0 {
        0
    } else {
        line_tag_count(map, t, k - 1) + match map.linedefs@[k - 1] {
            Some(l) => if l.tag == t { 1int } else { 0int },
            None => 0int,
        }
    }
}

pub open spec fn thing_tid_count(map: &MapData, t: u16, k: int) -> int
    decreases k,
{
    if k <= 0 {
        0
    } else {
        thing_tid_count(map, t, k - 1) + match map.things@[k - 1] {
            Some(th) => if th.tid == t { 1int } else { 0int },
            None => 0int,
        }
    }
}

proof fn lemma_counts_nonneg(map: &MapData, t: u16, k: int)
    ensures
        sector_tag_count(map, t, k) >= 0,
        line_tag_count(map, t, k) >= 0,
        thing_tid_count(map, t, k) >= 0,
    decreases k,
{
    if k > 0 {
        lemma_counts_nonneg(map, t, k - 1);
    }
}

/// A non-zero tag that some sector, line or thing uses.
pub open spec fn tag_in_use(map: &MapData, t: u16) -> bool {
    &&& t != 0
    &&& sector_tag_count(map, t, map.sectors@.len() as int) > 0 || line_tag_count(map, t, map.linedefs@.len() as int) > 0
        || thing_tid_count(map, t, map.things@.len() as int) > 0
}

pub open spec fn sorted_strict(s: Seq<u16>) -> bool {
    forall|i: int, j: int| 0 <= i < j < s.len() ==> #[trigger] s[i] < #[trigger] s[j]
}

fn insert_sorted(tags: &mut Vec<u16>, t: u16)
    requires
        sorted_strict(old(tags)@),
    ensures
        sorted_strict(final(tags)@),
        forall|x: u16| #[trigger] final(tags)@.contains(x) <==> old(tags)@.contains(x) || x == t,
{
    let ghost o = tags@;
    let mut j: usize = 0;
    while j < tags.len() && tags[j] < t
        invariant
            0 <= j <= tags@.len(),
            tags@ == o,
            forall|i: int| 0 <= i < j ==> tags@[i] < t,
        decreases tags@.len() - j,
    {
        j = j + 1;
    }
    if j < tags.len() && tags[j] == t {
        assert(tags@.contains(t));
        return;
    }
    tags.insert(j, t);
    proof {
        let n = tags@;
        assert(n == o.insert(j as int, t));
        assert forall|i: int, k: int| 0 <= i < k < n.len() implies #[trigger] n[i] < #[trigger] n[k] by {
            if k < j {
                assert(n[i] == o[i] && n[k] == o[k]);
            } else if k == j {
                assert(n[i] == o[i]);
            } else if i < j {
                assert(n[i] == o[i] && n[k] == o[k - 1]);
            } else if i == j {
                assert(n[k] == o[k - 1]);
                assert(o[j as int] > t);
                if k - 1 > j {
                    assert(o[j as int] < o[k - 1]);
                }
            } else {
                assert(n[i] == o[i - 1] && n[k] == o[k - 1]);
            }
        }
        assert forall|x: u16| #[trigger] n.contains(x) <==> o.contains(x) || x == t by {
            if n.contains(x) {
                let q = choose|q: int| 0 <= q < n.len() && n[q] == x;
                if q < j {
                    assert(o[q] == x);
                } else if q > j {
                    assert(o[q - 1] == x);
                }
            }
            if o.contains(x) {
                let q = choose|q: int| 0 <= q < o.len() && o[q] == x;
                if q < j {
                    assert(n[q] == x);
                } else {
                    assert(n[q + 1] == x);
                }
            }
            if x == t {
                assert(n[j as int] == t);
            }
        }
    }
}

fn count_sector_tag(map: &MapData, t: u16) -> (r: usize)
    ensures
        r == sector_tag_count(map, t, map.sectors@.len() as int),
{
    let mut c: usize = 0;
    let mut i: usize = 0;
    while i < map.sectors.len()
        invariant
            0 <= i <= map.sectors@.len(),
            c == sector_tag_count(map, t, i as int),
            c <= i,
        decreases map.sectors@.len() - i,
    {
        if let Some(s) = &map.sectors[i] {
            if s.tag == t {
                c = c + 1;
            }
        }
        i = i + 1;
    }
    c
}

fn count_line_tag(map: &MapData, t: u16) -> (r: usize)
    ensures
        r == line_tag_count(map, t, map.linedefs@.len() as int),
{
    let mut c: usize = 0;
    let mut i: usize = 0;
    while i < map.linedefs.len()
        invariant
            0 <= i <= map.linedefs@.len(),
            c == line_tag_count(map, t, i as int),
            c <= i,
        decreases map.linedefs@.len() - i,
    {
        if let Some(l) = map.linedefs[i] {
            if l.tag == t {
                c = c + 1;
            }
        }
        i = i + 1;
    }
    c
}

fn count_thing_tid(map: &MapData, t: u16) -> (r: usize)
    ensures
        r == thing_tid_count(map, t, map.things@.len() as int),
{
    let mut c: usize = 0;
    let mut i: usize = 0;
    while i < map.things.len()
        invariant
            0 <= i <= map.things@.len(),
            c == thing_tid_count(map, t, i as int),
            c <= i,
        decreases map.things@.len() - i,
    {
        if let Some(th) = map.things[i] {
            if th.tid == t {
                c = c + 1;
            }
        }
        i = i + 1;
    }
    c
}

/// Every tag in use, ascending, with how many sectors, lines and things use
/// it.
pub fn used_tags(map: &MapData) -> (r: Vec<TagUse>)
    ensures
        forall|i: int, j: int| 0 <= i < j < r@.len() ==> (#[trigger] r@[i]).tag < (#[trigger] r@[j]).tag,
        forall|i: int|
            0 <= i < r@.len() ==> {
                let u = #[trigger] r@[i];
                &&& tag_in_use(map, u.tag)
                &&& u.sectors == sector_tag_count(map, u.tag, map.sectors@.len() as int)
                &&& u.lines == line_tag_count(map, u.tag, map.linedefs@.len() as int)
                &&& u.things == thing_tid_count(map, u.tag, map.things@.len() as int)
            },
        forall|t: u16| tag_in_use(map, t) ==> exists|i: int| 0 <= i < r@.len() && (#[trigger] r@[i]).tag == t,
{
    let ns = map.sectors.len();
    let nl = map.linedefs.len();
    let nt = map.things.len();
    let mut tags: Vec<u16> = Vec::new();
    let mut i: usize = 0;
    while i < ns
        invariant
            ns == map.sectors@.len(),
            0 <= i <= ns,
            sorted_strict(tags@),
            forall|x: u16| #[trigger] tags@.contains(x) <==> x != 0 && sector_tag_count(map, x, i as int) > 0,
        decreases ns - i,
    {
        let ghost before = tags@;
        let t: u16 = match &map.sectors[i] {
            Some(s) => s.tag,
            None => 0,
        };
        if t != 0 {
            insert_sorted(&mut tags, t);
        }
        proof {
            assert forall|x: u16| #[trigger] tags@.contains(x) <==> x != 0 && sector_tag_count(map, x, i + 1) > 0 by {
                assert(tags@.contains(x) <==> before.contains(x) || (t != 0 && x == t));
                lemma_counts_nonneg(map, x, i as int);
                assert(sector_tag_count(map, x, i + 1) == sector_tag_count(map, x, i as int) + match map.sectors@[i as int] {
                    Some(s) => if s.tag == x { 1int } else { 0int },
                    None => 0int,
                });
                assert(before.contains(x) <==> x != 0 && sector_tag_count(map, x, i as int) > 0);
            }
        }
        i = i + 1;
    }
    let mut i: usize = 0;
    while i < nl
        invariant
            ns == map.sectors@.len(),
            nl == map.linedefs@.len(),
            0 <= i <= nl,
            sorted_strict(tags@),
            forall|x: u16| #[trigger] tags@.contains(x) <==> x != 0 && (sector_tag_count(map, x, ns as int) > 0
                || line_tag_count(map, x, i as int) > 0),
        decreases nl - i,
    {
        let ghost before = tags@;
        let t: u16 = match map.linedefs[i] {
            Some(l) => l.tag,
            None => 0,
        };
        if t != 0 {
            insert_sorted(&mut tags, t);
        }
        proof {
            assert forall|x: u16| #[trigger] tags@.contains(x) <==> x != 0 && (sector_tag_count(map, x, ns as int) > 0
                || line_tag_count(map, x, i + 1) > 0) by {
                assert(tags@.contains(x) <==> before.contains(x) || (t != 0 && x == t));
                lemma_counts_nonneg(map, x, i as int);
                assert(line_tag_count(map, x, i + 1) == line_tag_count(map, x, i as int) + match map.linedefs@[i as int] {
                    Some(l) => if l.tag == x { 1int } else { 0int },
                    None => 0int,
                });
                assert(before.contains(x) <==> x != 0 && (sector_tag_count(map, x, ns as int) > 0 || line_tag_count(map, x, i as int) > 0));
            }
        }
        i = i + 1;
    }
    let mut i: usize = 0;
    while i < nt
        invariant
            ns == map.sectors@.len(),
            nl == map.linedefs@.len(),
            nt == map.things@.len(),
            0 <= i <= nt,
            sorted_strict(tags@),
            forall|x: u16| #[trigger] tags@.contains(x) <==> x != 0 && (sector_tag_count(map, x, ns as int) > 0
                || line_tag_count(map, x, nl as int) > 0 || thing_tid_count(map, x, i as int) > 0),
        decreases nt - i,
    {
        let ghost before = tags@;
        let t: u16 = match map.things[i] {
            Some(th) => th.tid,
            None => 0,
        };
        if t != 0 {
            insert_sorted(&mut tags, t);
        }
        proof {
            assert forall|x: u16| #[trigger] tags@.contains(x) <==> x != 0 && (sector_tag_count(map, x, ns as int) > 0
                || line_tag_count(map, x, nl as int) > 0 || thing_tid_count(map, x, i + 1) > 0) by {
                assert(tags@.contains(x) <==> before.contains(x) || (t != 0 && x == t));
                lemma_counts_nonneg(map, x, i as int);
                assert(thing_tid_count(map, x, i + 1) == thing_tid_count(map, x, i as int) + match map.things@[i as int] {
                    Some(th) => if th.tid == x { 1int } else { 0int },
                    None => 0int,
                });
                assert(before.contains(x) <==> x != 0 && (sector_tag_count(map, x, ns as int) > 0 || line_tag_count(map, x, nl as int) > 0
                    || thing_tid_count(map, x, i as int) > 0));
            }
        }
        i = i + 1;
    }
    let mut out: Vec<TagUse> = Vec::new();
    let mut k: usize = 0;
    while k < tags.len()
        invariant
            0 <= k <= tags@.len(),
            sorted_strict(tags@),
            forall|x: u16| #[trigger] tags@.contains(x) <==> tag_in_use(map, x),
            out@.len() == k,
            forall|i: int| 0 <= i < k ==> (#[trigger] out@[i]).tag == tags@[i],
            forall|i: int|
                0 <= i < k ==> {
                    let u = #[trigger] out@[i];
                    &&& u.sectors == sector_tag_count(map, u.tag, map.sectors@.len() as int)
                    &&& u.lines == line_tag_count(map, u.tag, map.linedefs@.len() as int)
                    &&& u.things == thing_tid_count(map, u.tag, map.things@.len() as int)
                },
        decreases tags@.len() - k,
    {
        let t = tags[k];
        let u = TagUse { tag: t, sectors: count_sector_tag(map, t), lines: count_line_tag(map, t), things: count_thing_tid(map, t) };
        out.push(u);
        k = k + 1;
    }
    proof {
        assert forall|i: int, j: int| 0 <= i < j < out@.len() implies (#[trigger] out@[i]).tag < (#[trigger] out@[j]).tag by {
            assert(tags@[i] < tags@[j]);
        }
        assert forall|i: int| 0 <= i < out@.len() implies tag_in_use(map, (#[trigger] out@[i]).tag) by {
            assert(tags@.contains(tags@[i]));
        }
        assert forall|t: u16| tag_in_use(map, t) implies exists|i: int| 0 <= i < out@.len() && (#[trigger] out@[i]).tag == t by {
            assert(tags@.contains(t));
            let q = choose|q: int| 0 <= q < tags@.len() && tags@[q] == t;
            assert(out@[q].tag == t);
        }
    }
    out
}


// ---------------------------------------------------------------------------
// Bounds.

/// Box (min x, min y, max x, max y) of the vertices in the first `k` slots,
/// `None` when there are none.
pub open spec fn vertex_bounds(map: &MapData, k: int) -> Option<(int, int, int, int)>
    decreases k,
{
    if k <= 0 {
        None
    } else {
        let prev = vertex_bounds(map, k - 1);
        match map.vertices@[k - 1] {
            Some(v) => match prev {
                None => Some((v.x as int, v.y as int, v.x as int, v.y as int)),
                Some(b) => Some((min_i(b.0, v.x as int), min_i(b.1, v.y as int), max_i(b.2, v.x as int), max_i(b.3, v.y as int))),
            },
            None => prev,
        }
    }
}

proof fn lemma_vertex_bounds(map: &MapData, k: int)
    requires
        0 <= k <= map.vertices@.len(),
    ensures
        vertex_bounds(map, k) is None <==> forall|i: int| 0 <= i < k ==> #[trigger] map.vertices@[i] is None,
        vertex_bounds(map, k) matches Some(b) ==> {
            &&& forall|i: int|
                0 <= i < k && #[trigger] map.vertices@[i] is Some ==> b.0 <= map.vertices@[i]->0.x <= b.2 && b.1
                    <= map.vertices@[i]->0.y <= b.3
            &&& exists|i: int| 0 <= i < k && #[trigger] map.vertices@[i] is Some && map.vertices@[i]->0.x == b.0
            &&& exists|i: int| 0 <= i < k && #[trigger] map.vertices@[i] is Some && map.vertices@[i]->0.y == b.1
            &&& exists|i: int| 0 <= i < k && #[trigger] map.vertices@[i] is Some && map.vertices@[i]->0.x == b.2
            &&& exists|i: int| 0 <= i < k && #[trigger] map.vertices@[i] is Some && map.vertices@[i]->0.y == b.3
        },
    decreases k,
{
    if k > 0 {
        lemma_vertex_bounds(map, k - 1);
        if map.vertices@[k - 1] is None && vertex_bounds(map, k - 1) is None {
            assert forall|i: int| 0 <= i < k implies #[trigger] map.vertices@[i] is None by {}
        }
    }
}

/// Bounding box of the map's vertices: `None` exactly when there is no
/// vertex; otherwise every vertex lies inside it, and each of its sides
/// passes through a vertex.
pub fn map_aabb(map: &MapData) -> (r: Option<(i32, i32, i32, i32)>)
    ensures
        match r {
            Some(b) => vertex_bounds(map, map.vertices@.len() as int) == Some((b.0 as int, b.1 as int, b.2 as int, b.3 as int)),
            None => vertex_bounds(map, map.vertices@.len() as int) is None,
        },
        r is None <==> forall|i: int| 0 <= i < map.vertices@.len() ==> #[trigger] map.vertices@[i] is None,
        r matches Some(b) ==> {
            &&& forall|i: int|
                0 <= i < map.vertices@.len() && #[trigger] map.vertices@[i] is Some ==> b.0 <= map.vertices@[i]->0.x <= b.2
                    && b.1 <= map.vertices@[i]->0.y <= b.3
            &&& exists|i: int| 0 <= i < map.vertices@.len() && #[trigger] map.vertices@[i] is Some && map.vertices@[i]->0.x == b.0
            &&& exists|i: int| 0 <= i < map.vertices@.len() && #[trigger] map.vertices@[i] is Some && map.vertices@[i]->0.y == b.1
            &&& exists|i: int| 0 <= i < map.vertices@.len() && #[trigger] map.vertices@[i] is Some && map.vertices@[i]->0.x == b.2
            &&& exists|i: int| 0 <= i < map.vertices@.len() && #[trigger] map.vertices@[i] is Some && map.vertices@[i]->0.y == b.3
        },
{
    proof {
        lemma_vertex_bounds(map, map.vertices@.len() as int);
    }
    let mut r: Option<(i32, i32, i32, i32)> = None;
    let mut i: usize = 0;
    while i < map.vertices.len()
        invariant
            0 <= i <= map.vertices@.len(),
            match r {
                Some(b) => vertex_bounds(map, i as int) == Some((b.0 as int, b.1 as int, b.2 as int, b.3 as int)),
                None => vertex_bounds(map, i as int) is None,
            },
        decreases map.vertices@.len() - i,
    {
        if let Some(v) = map.vertices[i] {
            r = match r {
                None => Some((v.x, v.y, v.x, v.y)),
                Some(b) => Some((
                    if v.x < b.0 { v.x } else { b.0 },
                    if v.y < b.1 { v.y } else { b.1 },
                    if v.x > b.2 { v.x } else { b.2 },
                    if v.y > b.3 { v.y } else { b.3 },
                )),
            };
        }
        i = i + 1;
    }
    r
}

/// Box of the 3D world points (x, height, -y) of every mesh position at
/// its sector's floor and ceiling heights, over the first `k` meshes whose
/// sector exists: (min corner, max corner), `None` when there is no point.
pub open spec fn world_bounds_upto(map: &MapData, ms: Seq<(SectorId, FloorMesh)>, k: int) -> Option<(int, int, int, int, int, int)>
    decreases k,
{
    if k <= 0 {
        None
    } else {
        let prev = world_bounds_upto(map, ms, k - 1);
        match map.sector_at(ms[k - 1].0) {
            Some(sec) => mesh_world_bounds(ms[k - 1].1.positions@, sec.floor_height as int, sec.ceiling_height as int,
                ms[k - 1].1.positions@.len() as int, prev),
            None => prev,
        }
    }
}

/// `acc` grown by the first `n` positions, each at heights `lo` and `hi`.
pub open spec fn mesh_world_bounds(ps: Seq<[i32; 2]>, lo: int, hi: int, n: int, acc: Option<(int, int, int, int, int, int)>) -> Option<(int, int, int, int, int, int)>
    decreases n,
{
    if n <= 0 {
        acc
    } else {
        let prev = mesh_world_bounds(ps, lo, hi, n - 1, acc);
        let x = ps[n - 1][0] as int;
        let z = -(ps[n - 1][1] as int);
        let (ylo, yhi) = if lo <= hi { (lo, hi) } else { (hi, lo) };
        match prev {
            None => Some((x, ylo, z, x, yhi, z)),
            Some(b) => Some((min_i(b.0, x), min_i(b.1, ylo), min_i(b.2, z), max_i(b.3, x), max_i(b.4, yhi), max_i(b.5, z))),
        }
    }
}

/// Bounding box of the 3D scene: sector meshes at floor and ceiling height,
/// in (x, height, -y) space.
pub fn world_aabb(map: &MapData, meshes: &Vec<(SectorId, FloorMesh)>) -> (r: Option<([i64; 3], [i64; 3])>)
    ensures
        match r {
            Some(b) => world_bounds_upto(map, meshes@, meshes@.len() as int) == Some((b.0[0] as int, b.0[1] as int, b.0[2] as int,
                b.1[0] as int, b.1[1] as int, b.1[2] as int)),
            None => world_bounds_upto(map, meshes@, meshes@.len() as int) is None,
        },
{
    let mut r: Option<([i64; 3], [i64; 3])> = None;
    let mut k: usize = 0;
    while k < meshes.len()
        invariant
            0 <= k <= meshes@.len(),
            match r {
                Some(b) => world_bounds_upto(map, meshes@, k as int) == Some((b.0[0] as int, b.0[1] as int, b.0[2] as int,
                    b.1[0] as int, b.1[1] as int, b.1[2] as int)),
                None => world_bounds_upto(map, meshes@, k as int) is None,
            },
        decreases meshes@.len() - k,
    {
        let entry = &meshes[k];
        if let Some(sec) = map.sector(entry.0) {
            let f = sec.floor_height as i64;
            let c = sec.ceiling_height as i64;
            let (ylo, yhi) = if f <= c { (f, c) } else { (c, f) };
            let ps = &entry.1.positions;
            let ghost acc = world_bounds_upto(map, meshes@, k as int);
            let mut j: usize = 0;
            while j < ps.len()
                invariant
                    0 <= j <= ps@.len(),
                    ylo == (if f <= c { f } else { c }),
                    yhi == (if f <= c { c } else { f }),
                    -32768 <= f <= 32767,
                    -32768 <= c <= 32767,
                    match r {
                        Some(b) => mesh_world_bounds(ps@, f as int, c as int, j as int, acc) == Some((b.0[0] as int, b.0[1] as int,
                            b.0[2] as int, b.1[0] as int, b.1[1] as int, b.1[2] as int)),
                        None => mesh_world_bounds(ps@, f as int, c as int, j as int, acc) is None,
                    },
                decreases ps@.len() - j,
            {
                let x = ps[j][0] as i64;
                let z = -(ps[j][1] as i64);
                r = match r {
                    None => Some(([x, ylo, z], [x, yhi, z])),
                    Some(b) => Some((
                        [if x < b.0[0] { x } else { b.0[0] }, if ylo < b.0[1] { ylo } else { b.0[1] }, if z < b.0[2] { z } else { b.0[2] }],
                        [if x > b.1[0] { x } else { b.1[0] }, if yhi > b.1[1] { yhi } else { b.1[1] }, if z > b.1[2] { z } else { b.1[2] }],
                    )),
                };
                j = j + 1;
            }
        }
        k = k + 1;
    }
    r
}

} // verus!
