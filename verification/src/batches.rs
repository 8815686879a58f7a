//! Texture bookkeeping of the 3D view: the key under which a surface's
//! vertices are grouped, which texture a wall shows, and the layout of the
//! grouped vertices in one buffer as draw batches sorted by key.

use vstd::prelude::*;

use crate::analysis::{name_bytes, texture_name_bytes, to_upper, upper};
use crate::map::{MapData, TextureName};
use crate::walls::{Wall, WallKind};

verus! {

// ---------------------------------------------------------------------------
// Keys.

/// "__missing__": the bucket of surfaces without a texture.
pub open spec fn missing_key() -> Seq<u8> {
    seq![95u8, 95u8, 109u8, 105u8, 115u8, 115u8, 105u8, 110u8, 103u8, 95u8, 95u8]
}

/// "__sky__": the bucket of sky flats.
pub open spec fn sky_key() -> Seq<u8> {
    seq![95u8, 95u8, 115u8, 107u8, 121u8, 95u8, 95u8]
}

/// "F_SKY1", the sky flat.
pub open spec fn sky_flat() -> Seq<u8> {
    seq![70u8, 95u8, 83u8, 75u8, 89u8, 49u8]
}

/// `s` without its trailing NUL bytes.
pub open spec fn trim_nul(s: Seq<u8>) -> Seq<u8>
    decreases s.len(),
{
    if s.len() > 0 && s.last() == 0 {
        trim_nul(s.drop_last())
    } else {
        s
    }
}

/// Bucket key of a texture name: "__missing__" when it is empty or "-"
/// once trailing NULs are gone, else its upper-case form.
pub open spec fn key_spec(name: Seq<u8>) -> Seq<u8> {
    let t = trim_nul(name);
    if t.len() == 0 || t == seq![45u8] {
        missing_key()
    } else {
        upper(t)
    }
}

/// Bucket key of a texture name.
pub fn key(name: &Vec<u8>) -> (r: Vec<u8>)
    ensures
        r@ == key_spec(name@),
{
    let mut n: usize = name.len();
    assert(name@.subrange(0, name@.len() as int) =~= name@);
    while n > 0 && name[n - 1] == 0u8
        invariant
            0 <= n <= name@.len(),
            trim_nul(name@) == trim_nul(name@.subrange(0, n as int)),
        decreases n,
    {
        assert(name@.subrange(0, n as int).drop_last() =~= name@.subrange(0, n - 1));
        n = n - 1;
    }
    let mut t: Vec<u8> = Vec::new();
    let mut i: usize = 0;
    while i < n
        invariant
            0 <= i <= n <= name@.len(),
            t@ == name@.subrange(0, i as int),
        decreases n - i,
    {
        t.push(name[i]);
        assert(t@ =~= name@.subrange(0, i + 1));
        i = i + 1;
    }
    assert(trim_nul(name@) == t@);
    if t.len() == 0 || (t.len() == 1 && t[0] == 45u8) {
        proof {
            if t@.len() == 1 {
                assert(t@ =~= seq![45u8]);
            }
        }
        vec![95u8, 95u8, 109u8, 105u8, 115u8, 115u8, 105u8, 110u8, 103u8, 95u8, 95u8]
    } else {
        proof {
            if t@ == seq![45u8] {
                assert(t@.len() == 1 && t@[0] == 45u8);
            }
        }
        to_upper(&t)
    }
}

/// A sector flat is the sky when its upper-case name is "F_SKY1".
pub open spec fn is_sky_spec(n: TextureName) -> bool {
    upper(name_bytes(n)) == sky_flat()
}

/// Bucket key of a floor or ceiling flat: the sky bucket for the sky
/// flat, else the key of its upper-case name.
pub open spec fn flat_key_spec(n: TextureName) -> Seq<u8> {
    if is_sky_spec(n) {
        sky_key()
    } else {
        key_spec(upper(name_bytes(n)))
    }
}

/// Whether the flat is the sky (drawn at full brightness).
pub fn is_sky(n: &TextureName) -> (b: bool)
    ensures
        b == is_sky_spec(*n),
{
    let up = to_upper(&texture_name_bytes(n));
    let r = up.len() == 6 && up[0] == 70u8 && up[1] == 95u8 && up[2] == 83u8 && up[3] == 75u8 && up[4] == 89u8 && up[5] == 49u8;
    proof {
        if r {
            assert(up@ =~= sky_flat());
        }
    }
    r
}

/// Bucket key of a floor or ceiling flat.
pub fn flat_key(n: &TextureName) -> (r: Vec<u8>)
    ensures
        r@ == flat_key_spec(*n),
{
    if is_sky(n) {
        vec![95u8, 95u8, 115u8, 107u8, 121u8, 95u8, 95u8]
    } else {
        key(&to_upper(&texture_name_bytes(n)))
    }
}

/// The texture a wall shows: the slot of its sidedef that its kind names.
pub open spec fn wall_slot(side: crate::map::MapSidedef, kind: WallKind) -> TextureName {
    match kind {
        WallKind::Solid => side.middle_texture,
        WallKind::Upper => side.upper_texture,
        WallKind::Lower => side.lower_texture,
    }
}

/// The texture a wall shows, or an all-NUL name when its sidedef is gone.
pub fn wall_texture_name(map: &MapData, wall: &Wall) -> (r: TextureName)
    ensures
        match map.sidedef_at(wall.sidedef) {
            Some(side) => r == wall_slot(side, wall.kind),
            None => r.0@ == Seq::new(8, |i: int| 0u8),
        },
{
    match map.sidedef(wall.sidedef) {
        Some(side) => match wall.kind {
            WallKind::Solid => side.middle_texture,
            WallKind::Upper => side.upper_texture,
            WallKind::Lower => side.lower_texture,
        },
        None => {
            let n = TextureName([0u8; 8]);
            assert(n.0@ =~= Seq::new(8, |i: int| 0u8));
            n
        },
    }
}


// ---------------------------------------------------------------------------
// Byte-string order.

/// `a` sorts before `b`, byte by byte, a proper prefix first (the order of
/// `String`s).
pub open spec fn lex_lt(a: Seq<u8>, b: Seq<u8>) -> bool
    decreases a.len(),
{
    if a.len() == 0 {
        b.len() > 0
    } else if b.len() == 0 {
        false
    } else if a[0] != b[0] {
        a[0] < b[0]
    } else {
        lex_lt(a.drop_first(), b.drop_first())
    }
}

/// The key order is irreflexive: no key sorts before itself.
pub proof fn lemma_lex_irreflexive(a: Seq<u8>)
    ensures
        !lex_lt(a, a),
    decreases a.len(),
{
    if a.len() > 0 {
        lemma_lex_irreflexive(a.drop_first());
    }
}

/// The key order is transitive.
pub proof fn lemma_lex_transitive(a: Seq<u8>, b: Seq<u8>, c: Seq<u8>)
    requires
        lex_lt(a, b),
        lex_lt(b, c),
    ensures
        lex_lt(a, c),
    decreases a.len(),
{
    if a.len() > 0 && b.len() > 0 && c.len() > 0 && a[0] == b[0] && b[0] == c[0] {
        lemma_lex_transitive(a.drop_first(), b.drop_first(), c.drop_first());
    }
}

/// The key order is total: of two different keys one sorts first.
pub proof fn lemma_lex_total(a: Seq<u8>, b: Seq<u8>)
    requires
        a != b,
    ensures
        lex_lt(a, b) || lex_lt(b, a),
    decreases a.len(),
{
    if a.len() > 0 && b.len() > 0 && a[0] == b[0] {
        if a.drop_first() == b.drop_first() {
            assert(a.drop_first().len() == b.drop_first().len());
            assert(a.len() == b.len());
            assert(a =~= b) by {
                assert forall|i: int| 0 <= i < a.len() implies a[i] == b[i] by {
                    if i > 0 {
                        assert(a[i] == a.drop_first()[i - 1]);
                        assert(b[i] == b.drop_first()[i - 1]);
                    }
                }
            }
        }
        lemma_lex_total(a.drop_first(), b.drop_first());
    } else if a.len() == 0 && b.len() == 0 {
        assert(a =~= b);
    }
}

fn bytes_lt(a: &Vec<u8>, b: &Vec<u8>) -> (r: bool)
    ensures
        r == lex_lt(a@, b@),
{
    let mut i: usize = 0;
    assert(a@.subrange(0, a@.len() as int) =~= a@);
    assert(b@.subrange(0, b@.len() as int) =~= b@);
    while i < a.len() && i < b.len()
        invariant
            0 <= i <= a@.len(),
            i <= b@.len(),
            lex_lt(a@, b@) == lex_lt(a@.subrange(i as int, a@.len() as int), b@.subrange(i as int, b@.len() as int)),
        decreases a@.len() - i,
    {
        let ghost sa = a@.subrange(i as int, a@.len() as int);
        let ghost sb = b@.subrange(i as int, b@.len() as int);
        assert(sa[0] == a@[i as int] && sb[0] == b@[i as int]);
        if a[i] != b[i] {
            return a[i] < b[i];
        }
        assert(sa.drop_first() =~= a@.subrange(i + 1, a@.len() as int));
        assert(sb.drop_first() =~= b@.subrange(i + 1, b@.len() as int));
        i = i + 1;
    }
    i < b.len()
}

// ---------------------------------------------------------------------------
// Draw batches.

/// A run of the vertex buffer drawn with one texture.
#[derive(Clone, Debug)]
pub struct DrawBatch {
    pub texture_name: Vec<u8>,
    pub start: u32,
    pub count: u32,
}

/// No two buckets share a key.
pub open spec fn keys_distinct<T>(b: Seq<(Vec<u8>, Vec<T>)>) -> bool {
    forall|p: int, q: int| 0 <= p < q < b.len() ==> (#[trigger] b[p]).0@ != (#[trigger] b[q]).0@
}

/// Number of vertices in the first `n` buckets.
pub open spec fn total_len<T>(b: Seq<(Vec<u8>, Vec<T>)>, n: int) -> int
    decreases n,
{
    if n <= 0 {
        0
    } else {
        total_len(b, n - 1) + b[n - 1].1@.len()
    }
}

/// Number of vertices in the first `n` buckets that `used` marks.
pub open spec fn used_len<T>(b: Seq<(Vec<u8>, Vec<T>)>, used: Seq<bool>, n: int) -> int
    decreases n,
{
    if n <= 0 {
        0
    } else {
        used_len(b, used, n - 1) + if used[n - 1] { b[n - 1].1@.len() as int } else { 0 }
    }
}

proof fn lemma_used_len_mark<T>(b: Seq<(Vec<u8>, Vec<T>)>, used: Seq<bool>, p: int, n: int)
    requires
        0 <= p,
        0 <= n <= used.len(),
        p < used.len(),
        !used[p],
    ensures
        used_len(b, used.update(p, true), n) == used_len(b, used, n) + if p < n { b[p].1@.len() as int } else { 0 },
    decreases n,
{
    if n > 0 {
        lemma_used_len_mark(b, used, p, n - 1);
    }
}

proof fn lemma_used_len_le<T>(b: Seq<(Vec<u8>, Vec<T>)>, used: Seq<bool>, n: int)
    requires
        0 <= n <= used.len(),
    ensures
        0 <= used_len(b, used, n) <= total_len(b, n),
    decreases n,
{
    if n > 0 {
        lemma_used_len_le(b, used, n - 1);
    }
}

/// The vertex buffer `verts` and its batches lay out the non-empty buckets
/// of `b` one after another, by ascending key, each batch naming its
/// bucket's key, where the bucket's vertices start and how many they are.
pub open spec fn batch_layout<T>(b: Seq<(Vec<u8>, Vec<T>)>, verts: Seq<T>, batches: Seq<DrawBatch>) -> bool {
    &&& forall|i: int, j: int|
        0 <= i < j < batches.len() ==> lex_lt((#[trigger] batches[i]).texture_name@, (#[trigger] batches[j]).texture_name@)
    &&& forall|k: int|
        0 <= k < batches.len() ==> exists|p: int|
            0 <= p < b.len() && (#[trigger] b[p]).0@ == (#[trigger] batches[k]).texture_name@ && b[p].1@.len() > 0
                && batches[k].count == b[p].1@.len() && batches[k].start + batches[k].count <= verts.len()
                && verts.subrange(batches[k].start as int, batches[k].start + batches[k].count) == b[p].1@
    &&& forall|p: int|
        0 <= p < b.len() && (#[trigger] b[p]).1@.len() > 0 ==> exists|k: int|
            0 <= k < batches.len() && (#[trigger] batches[k]).texture_name@ == b[p].0@
    &&& batches.len() == 0 ==> verts.len() == 0
    &&& batches.len() > 0 ==> batches[0].start == 0 && batches.last().start + batches.last().count == verts.len()
    &&& forall|k: int| 0 <= k < batches.len() - 1 ==> #[trigger] batches[k + 1].start == batches[k].start + batches[k].count
}

/// Indices of the buckets, by ascending key.
fn sorted_order<T>(b: &Vec<(Vec<u8>, Vec<T>)>) -> (order: Vec<usize>)
    requires
        keys_distinct(b@),
    ensures
        order@.len() == b@.len(),
        forall|i: int| 0 <= i < order@.len() ==> (#[trigger] order@[i]) < b@.len(),
        forall|p: usize| p < b@.len() ==> #[trigger] order@.contains(p),
        forall|i: int, j: int|
            0 <= i < j < order@.len() ==> lex_lt(b@[(#[trigger] order@[i]) as int].0@, b@[(#[trigger] order@[j]) as int].0@),
{
    let mut order: Vec<usize> = Vec::new();
    let mut p: usize = 0;
    while p < b.len()
        invariant
            0 <= p <= b@.len(),
            keys_distinct(b@),
            order@.len() == p,
            forall|i: int| 0 <= i < order@.len() ==> (#[trigger] order@[i]) < p,
            forall|q: usize| q < p ==> #[trigger] order@.contains(q),
            forall|i: int, j: int|
                0 <= i < j < order@.len() ==> lex_lt(b@[(#[trigger] order@[i]) as int].0@, b@[(#[trigger] order@[j]) as int].0@),
        decreases b@.len() - p,
    {
        let ghost kp = b@[p as int].0@;
        let mut j: usize = 0;
        let mut scanning = true;
        while scanning && j < order.len()
            invariant
                0 <= j <= order@.len(),
                order@.len() == p,
                p < b@.len(),
                kp == b@[p as int].0@,
                forall|i: int| 0 <= i < order@.len() ==> (#[trigger] order@[i]) < p,
                forall|i: int| 0 <= i < j ==> lex_lt(b@[(#[trigger] order@[i]) as int].0@, kp),
                !scanning ==> j < order@.len() && !lex_lt(b@[order@[j as int] as int].0@, kp),
            decreases order@.len() - j + if scanning { 1int } else { 0int },
        {
            if bytes_lt(&b[order[j]].0, &b[p].0) {
                j = j + 1;
            } else {
                scanning = false;
            }
        }
        let ghost o = order@;
        proof {
            assert forall|m: int| j <= m < o.len() implies lex_lt(kp, b@[(#[trigger] o[m]) as int].0@) by {
                let oj = o[j as int] as int;
                assert(oj < p);
                assert(b@[oj].0@ != kp);
                lemma_lex_total(b@[oj].0@, kp);
                if m > j {
                    lemma_lex_transitive(kp, b@[oj].0@, b@[o[m] as int].0@);
                }
            }
        }
        order.insert(j, p);
        proof {
            let n = order@;
            assert(n == o.insert(j as int, p));
            assert forall|i: int, k: int| 0 <= i < k < n.len() implies lex_lt(
                b@[(#[trigger] n[i]) as int].0@,
                b@[(#[trigger] n[k]) as int].0@,
            ) by {
                if k < j {
                    assert(n[i] == o[i] && n[k] == o[k]);
                } else if k == j {
                    assert(n[i] == o[i]);
                } else if i < j {
                    assert(n[i] == o[i] && n[k] == o[k - 1]);
                } else if i == j {
                    assert(n[k] == o[k - 1]);
                } else {
                    assert(n[i] == o[i - 1] && n[k] == o[k - 1]);
                }
            }
            assert forall|q: usize| q < p + 1 implies #[trigger] n.contains(q) by {
                if q == p {
                    assert(n[j as int] == p);
                } else {
                    assert(o.contains(q));
                    let t = choose|t: int| 0 <= t < o.len() && o[t] == q;
                    if t < j {
                        assert(n[t] == o[t]);
                    } else {
                        assert(n[t + 1] == o[t]);
                    }
                }
            }
            assert forall|i: int| 0 <= i < n.len() implies (#[trigger] n[i]) < p + 1 by {
                if i < j {
                    assert(n[i] == o[i]);
                } else if i > j {
                    assert(n[i] == o[i - 1]);
                }
            }
        }
        p = p + 1;
    }
    order
}


fn copy_bytes(v: &Vec<u8>) -> (r: Vec<u8>)
    ensures
        r@ == v@,
{
    let mut out: Vec<u8> = Vec::new();
    let mut i: usize = 0;
    while i < v.len()
        invariant
            0 <= i <= v@.len(),
            out@ == v@.subrange(0, i as int),
        decreases v@.len() - i,
    {
        out.push(v[i]);
        assert(out@ =~= v@.subrange(0, i + 1));
        i = i + 1;
    }
    assert(v@.subrange(0, v@.len() as int) =~= v@);
    out
}

/// Lay the vertex buckets out in one buffer, by ascending key, skipping
/// empty buckets, with one draw batch per bucket.
pub fn flatten_batches<T: Copy>(buckets: &Vec<(Vec<u8>, Vec<T>)>) -> (r: (Vec<T>, Vec<DrawBatch>))
    requires
        keys_distinct(buckets@),
        total_len(buckets@, buckets@.len() as int) <= u32::MAX,
    ensures
        batch_layout(buckets@, r.0@, r.1@),
{
    let ghost b = buckets@;
    let ghost n = b.len() as int;
    let order = sorted_order(buckets);
    let mut verts: Vec<T> = Vec::new();
    let mut batches: Vec<DrawBatch> = Vec::new();
    let ghost mut used: Seq<bool> = Seq::new(b.len(), |i: int| false);
    let ghost mut pos: Seq<int> = Seq::empty();
    proof {
        assert forall|i: int, j: int| 0 <= i < j < order@.len() implies order@[i] != order@[j] by {
            assert(lex_lt(b[order@[i] as int].0@, b[order@[j] as int].0@));
            if order@[i] == order@[j] {
                lemma_lex_irreflexive(b[order@[i] as int].0@);
            }
        }
        assert(used_len(b, used, n) == 0) by {
            lemma_used_len_zero(b, used, n);
        }
    }
    let mut k: usize = 0;
    while k < order.len()
        invariant
            b == buckets@,
            n == b.len(),
            total_len(b, n) <= u32::MAX,
            order@.len() == n,
            forall|i: int| 0 <= i < order@.len() ==> (#[trigger] order@[i]) < n,
            forall|p: usize| p < n ==> #[trigger] order@.contains(p),
            forall|i: int, j: int|
                0 <= i < j < order@.len() ==> lex_lt(b[(#[trigger] order@[i]) as int].0@, b[(#[trigger] order@[j]) as int].0@),
            forall|i: int, j: int| 0 <= i < j < order@.len() ==> (#[trigger] order@[i]) != (#[trigger] order@[j]),
            0 <= k <= n,
            used.len() == n,
            forall|p: int| 0 <= p < n ==> (#[trigger] used[p] <==> exists|i: int| 0 <= i < k && order@[i] == p),
            verts@.len() == used_len(b, used, n),
            pos.len() == batches@.len(),
            forall|a: int, c: int| 0 <= a < c < pos.len() ==> (#[trigger] pos[a]) < (#[trigger] pos[c]),
            forall|kb: int|
                0 <= kb < pos.len() ==> {
                    let p = order@[pos[kb]] as int;
                    &&& 0 <= #[trigger] pos[kb] < k
                    &&& b[p].0@ == batches@[kb].texture_name@
                    &&& b[p].1@.len() > 0
                    &&& batches@[kb].count == b[p].1@.len()
                    &&& batches@[kb].start + batches@[kb].count <= verts@.len()
                    &&& verts@.subrange(batches@[kb].start as int, batches@[kb].start + batches@[kb].count) == b[p].1@
                },
            batches@.len() == 0 ==> verts@.len() == 0,
            batches@.len() > 0 ==> batches@[0].start == 0 && batches@.last().start + batches@.last().count == verts@.len(),
            forall|kb: int| 0 <= kb < batches@.len() - 1 ==> #[trigger] batches@[kb + 1].start == batches@[kb].start + batches@[kb].count,
            forall|i: int| 0 <= i < k && b[order@[i] as int].1@.len() > 0 ==> exists|kb: int| 0 <= kb < pos.len() && #[trigger] pos[kb] == i,
        decreases n - k,
    {
        let p = order[k];
        let ghost old_pos = pos;
        proof {
            assert(!used[p as int]) by {
                if used[p as int] {
                    let i = choose|i: int| 0 <= i < k && order@[i] == p;
                    assert(order@[i] != order@[k as int]);
                }
            }
            lemma_used_len_mark(b, used, p as int, n);
            lemma_used_len_le(b, used.update(p as int, true), n);
        }
        let src = &buckets[p].1;
        if src.len() > 0 {
            let start = verts.len();
            let ghost before = verts@;
            let mut j: usize = 0;
            while j < src.len()
                invariant
                    0 <= j <= src@.len(),
                    verts@ == before + src@.subrange(0, j as int),
                decreases src@.len() - j,
            {
                verts.push(src[j]);
                assert(verts@ =~= before + src@.subrange(0, j + 1));
                j = j + 1;
            }
            assert(src@.subrange(0, src@.len() as int) =~= src@);
            let name = copy_bytes(&buckets[p].0);
            let ghost old_batches = batches@;
            batches.push(DrawBatch { texture_name: name, start: start as u32, count: src.len() as u32 });
            proof {
                assert forall|kb: int| 0 <= kb < old_batches.len() implies verts@.subrange(
                    batches@[kb].start as int,
                    batches@[kb].start + batches@[kb].count,
                ) == before.subrange(batches@[kb].start as int, batches@[kb].start + batches@[kb].count) by {
                    assert(0 <= pos[kb] < k);
                    assert(batches@[kb] == old_batches[kb]);
                    assert(verts@.subrange(batches@[kb].start as int, batches@[kb].start + batches@[kb].count) =~= before.subrange(
                        batches@[kb].start as int,
                        batches@[kb].start + batches@[kb].count,
                    ));
                }
                assert(verts@.subrange(start as int, start + src@.len()) =~= src@);
                pos = pos.push(k as int);
            }
        }
        proof {
            used = used.update(p as int, true);
            assert forall|i: int| 0 <= i < k + 1 && b[order@[i] as int].1@.len() > 0 implies exists|kb: int|
                0 <= kb < pos.len() && #[trigger] pos[kb] == i by {
                if i == k {
                    assert(pos[pos.len() - 1] == k);
                } else {
                    let kb = choose|kb: int| 0 <= kb < old_pos.len() && #[trigger] old_pos[kb] == i;
                    assert(pos[kb] == old_pos[kb]);
                }
            }
        }
        k = k + 1;
    }
    proof {
        assert forall|i: int, j: int| 0 <= i < j < batches@.len() implies lex_lt(
            (#[trigger] batches@[i]).texture_name@,
            (#[trigger] batches@[j]).texture_name@,
        ) by {
            assert(pos[i] < pos[j]);
        }
        assert forall|kb: int| 0 <= kb < batches@.len() implies exists|p: int|
            0 <= p < b.len() && (#[trigger] b[p]).0@ == (#[trigger] batches@[kb]).texture_name@ && b[p].1@.len() > 0
                && batches@[kb].count == b[p].1@.len() && batches@[kb].start + batches@[kb].count <= verts@.len()
                && verts@.subrange(batches@[kb].start as int, batches@[kb].start + batches@[kb].count) == b[p].1@ by {
            let p = order@[pos[kb]] as int;
            assert(0 <= pos[kb] < k);
            assert(b[p].0@ == batches@[kb].texture_name@);
        }
        assert forall|p: int| 0 <= p < b.len() && (#[trigger] b[p]).1@.len() > 0 implies exists|kb: int|
            0 <= kb < batches@.len() && (#[trigger] batches@[kb]).texture_name@ == b[p].0@ by {
            assert(order@.contains(p as usize));
            let i = choose|i: int| 0 <= i < order@.len() && order@[i] == p as usize;
            let kb = choose|kb: int| 0 <= kb < pos.len() && #[trigger] pos[kb] == i;
            assert(batches@[kb].texture_name@ == b[p].0@);
        }
    }
    (verts, batches)
}

proof fn lemma_used_len_zero<T>(b: Seq<(Vec<u8>, Vec<T>)>, used: Seq<bool>, n: int)
    requires
        0 <= n <= used.len(),
        forall|i: int| 0 <= i < used.len() ==> !used[i],
    ensures
        used_len(b, used, n) == 0,
    decreases n,
{
    if n > 0 {
        lemma_used_len_zero(b, used, n - 1);
    }
}


// ---------------------------------------------------------------------------
// Sprite lookup.

/// The first `n` bytes of `s` (all of it when shorter).
pub open spec fn take_n(s: Seq<u8>, n: int) -> Seq<u8> {
    if s.len() <= n { s } else { s.subrange(0, n) }
}

/// Sprite lump names tried, in order, for a thing's sprite: the first six
/// characters of its upper-case name, then its four-letter base with frame
/// A at rotations 0, 1 and 2. None for an empty name.
pub open spec fn sprite_candidates_spec(sprite: Seq<u8>) -> Option<Seq<Seq<u8>>> {
    let up = upper(sprite);
    if up.len() == 0 {
        None
    } else {
        let base = take_n(up, 4);
        Some(seq![take_n(up, 6), base + seq![65u8, 48u8], base + seq![65u8, 49u8], base + seq![65u8, 50u8]])
    }
}

fn take_bytes(s: &Vec<u8>, n: usize) -> (r: Vec<u8>)
    ensures
        r@ == take_n(s@, n as int),
{
    let mut out: Vec<u8> = Vec::new();
    let mut i: usize = 0;
    while i < s.len() && i < n
        invariant
            0 <= i <= s@.len(),
            i <= n,
            out@ == s@.subrange(0, i as int),
        decreases s@.len() - i,
    {
        out.push(s[i]);
        assert(out@ =~= s@.subrange(0, i + 1));
        i = i + 1;
    }
    assert(s@.subrange(0, s@.len() as int) =~= s@);
    out
}

/// The sprite lump names to look up for a thing's sprite name.
pub fn sprite_candidates(sprite: &Vec<u8>) -> (r: Option<Vec<Vec<u8>>>)
    ensures
        match r {
            Some(v) => sprite_candidates_spec(sprite@) == Some(v@.map_values(|c: Vec<u8>| c@)),
            None => sprite_candidates_spec(sprite@) is None,
        },
{
    let up = to_upper(sprite);
    if up.len() == 0 {
        return None;
    }
    let six = take_bytes(&up, 6);
    let mut a0 = take_bytes(&up, 4);
    let mut a1 = take_bytes(&up, 4);
    let mut a2 = take_bytes(&up, 4);
    let ghost base = a0@;
    a0.push(65u8);
    a0.push(48u8);
    a1.push(65u8);
    a1.push(49u8);
    a2.push(65u8);
    a2.push(50u8);
    assert(a0@ =~= base + seq![65u8, 48u8]);
    assert(a1@ =~= base + seq![65u8, 49u8]);
    assert(a2@ =~= base + seq![65u8, 50u8]);
    let v = vec![six, a0, a1, a2];
    assert(v@.map_values(|c: Vec<u8>| c@) =~= sprite_candidates_spec(sprite@)->0);
    Some(v)
}

} // verus!
