//! The filter box of the pickers: which textures, maps, actions, thing
//! types and sector specials a typed filter keeps, and in what order the
//! numbered entries are listed. Matching is substring matching that ignores
//! ASCII case.

use vstd::prelude::*;

use crate::launch::{decimal, digit_char};

verus! {

pub open spec fn lower_char(c: char) -> char {
    if 'A' <= c <= 'Z' {
        ((c as int) + 32) as char
    } else {
        c
    }
}

pub open spec fn upper_char(c: char) -> char {
    if 'a' <= c <= 'z' {
        ((c as int) - 32) as char
    } else {
        c
    }
}

pub open spec fn lower(s: Seq<char>) -> Seq<char> {
    s.map_values(|c: char| lower_char(c))
}

pub open spec fn upper(s: Seq<char>) -> Seq<char> {
    s.map_values(|c: char| upper_char(c))
}

/// `needle` occurs in `hay` (an empty needle occurs everywhere).
pub open spec fn has_sub(hay: Seq<char>, needle: Seq<char>) -> bool {
    exists|i: int, j: int| 0 <= i && j == i + needle.len() && j <= hay.len() && #[trigger] hay.subrange(i, j) == needle
}

fn lower_exec(c: char) -> (r: char)
    ensures
        r == lower_char(c),
{
    if 'A' <= c && c <= 'Z' {
        let b: u8 = c as u8;
        let l: u8 = b + 32;
        l as char
    } else {
        c
    }
}

fn upper_exec(c: char) -> (r: char)
    ensures
        r == upper_char(c),
{
    if 'a' <= c && c <= 'z' {
        let b: u8 = c as u8;
        let u: u8 = b - 32;
        u as char
    } else {
        c
    }
}

/// ASCII lower case of a text.
pub fn to_lower(s: &Vec<char>) -> (r: Vec<char>)
    ensures
        r@ == lower(s@),
{
    let mut out: Vec<char> = Vec::new();
    let mut i: usize = 0;
    while i < s.len()
        invariant
            0 <= i <= s@.len(),
            out@ =~= lower(s@.subrange(0, i as int)),
        decreases s@.len() - i,
    {
        out.push(lower_exec(s[i]));
        i = i + 1;
    }
    assert(s@.subrange(0, s@.len() as int) =~= s@);
    out
}

/// ASCII upper case of a text.
pub fn to_upper(s: &Vec<char>) -> (r: Vec<char>)
    ensures
        r@ == upper(s@),
{
    let mut out: Vec<char> = Vec::new();
    let mut i: usize = 0;
    while i < s.len()
        invariant
            0 <= i <= s@.len(),
            out@ =~= upper(s@.subrange(0, i as int)),
        decreases s@.len() - i,
    {
        out.push(upper_exec(s[i]));
        i = i + 1;
    }
    assert(s@.subrange(0, s@.len() as int) =~= s@);
    out
}

/// Whether `needle` occurs in `hay`.
pub fn contains_text(hay: &Vec<char>, needle: &Vec<char>) -> (b: bool)
    ensures
        b == has_sub(hay@, needle@),
{
    let n = needle.len();
    let hl = hay.len();
    if n > hl {
        return false;
    }
    if n == 0 {
        assert(hay@.subrange(0, 0) =~= needle@);
        return true;
    }
    let last: usize = hl - n;
    let mut i: usize = 0;
    while i <= last
        invariant
            hl == hay@.len(),
            last == hay@.len() - n,
            n == needle@.len(),
            0 < n <= hay@.len(),
            0 <= i <= last + 1,
            forall|k: int| 0 <= k < i ==> #[trigger] hay@.subrange(k, k + n) != needle@,
        decreases last + 1 - i,
    {
        let mut j: usize = 0;
        let mut same = true;
        while same && j < n
            invariant
                hl == hay@.len(),
                n == needle@.len(),
                i + n <= hay@.len(),
                0 <= j <= n,
                forall|t: int| 0 <= t < j ==> hay@[i + t] == needle@[t],
                !same ==> j < n && hay@[i + j] != needle@[j as int],
            decreases n - j + if same { 1int } else { 0int },
        {
            if hay[i + j] == needle[j] {
                j = j + 1;
            } else {
                same = false;
            }
        }
        if same {
            assert(hay@.subrange(i as int, i + n) =~= needle@);
            return true;
        }
        assert(hay@.subrange(i as int, i + n)[j as int] != needle@[j as int]);
        i = i + 1;
    }
    proof {
        assert forall|k: int, m: int| 0 <= k && m == k + n && m <= hay@.len() implies #[trigger] hay@.subrange(k, m) != needle@ by {
            assert(k < i);
        }
    }
    false
}

fn decimal_chars(n: u32) -> (r: Vec<char>)
    ensures
        r@ == decimal(n as nat),
    decreases n,
{
    let d: u8 = (n % 10) as u8;
    let c: char = (d + 48) as char;
    assert(c == digit_char((n % 10) as int));
    if n < 10 {
        let r = vec![c];
        assert(r@ =~= decimal(n as nat));
        r
    } else {
        let mut r = decimal_chars(n / 10);
        r.push(c);
        r
    }
}

// ---------------------------------------------------------------------------
// Names.

/// The filter keeps a texture name when it is empty or the name contains
/// it in upper case.
pub open spec fn texture_hit(name: Seq<char>, filter: Seq<char>) -> bool {
    filter.len() == 0 || has_sub(name, upper(filter))
}

/// The filter keeps a map name when it is empty or the name contains it,
/// ignoring case.
pub open spec fn map_hit(name: Seq<char>, filter: Seq<char>) -> bool {
    filter.len() == 0 || has_sub(lower(name), lower(filter))
}

/// The indices `i`, in ascending order, for which `keep(i)` holds.
pub open spec fn kept_indices(n: nat, keep: spec_fn(int) -> bool) -> Seq<usize>
    decreases n,
{
    if n == 0 {
        Seq::empty()
    } else {
        let prev = kept_indices((n - 1) as nat, keep);
        if keep(n - 1) {
            prev.push((n - 1) as usize)
        } else {
            prev
        }
    }
}

/// The texture picker: indices of the names the filter keeps, in order.
/// Texture names are upper case, so the filter is upper-cased first.
pub fn texture_names_matching(names: &Vec<Vec<char>>, filter: &Vec<char>) -> (r: Vec<usize>)
    ensures
        r@ == kept_indices(names@.len(), |i: int| texture_hit(names@[i]@, filter@)),
{
    let q = to_upper(filter);
    let mut out: Vec<usize> = Vec::new();
    let mut i: usize = 0;
    while i < names.len()
        invariant
            0 <= i <= names@.len(),
            q@ == upper(filter@),
            out@ == kept_indices(i as nat, |k: int| texture_hit(names@[k]@, filter@)),
        decreases names@.len() - i,
    {
        if filter.len() == 0 || contains_text(&names[i], &q) {
            out.push(i);
        }
        i = i + 1;
    }
    out
}

/// The map picker: indices of the map names the filter keeps, in order.
pub fn map_names_matching(names: &Vec<Vec<char>>, filter: &Vec<char>) -> (r: Vec<usize>)
    ensures
        r@ == kept_indices(names@.len(), |i: int| map_hit(names@[i]@, filter@)),
{
    let q = to_lower(filter);
    let mut out: Vec<usize> = Vec::new();
    let mut i: usize = 0;
    while i < names.len()
        invariant
            0 <= i <= names@.len(),
            q@ == lower(filter@),
            out@ == kept_indices(i as nat, |k: int| map_hit(names@[k]@, filter@)),
        decreases names@.len() - i,
    {
        if filter.len() == 0 || contains_text(&to_lower(&names[i]), &q) {
            out.push(i);
        }
        i = i + 1;
    }
    out
}

// ---------------------------------------------------------------------------
// Numbered entries.

/// A numbered picker entry: a linedef action, a thing type or a sector
/// special (whose category is empty).
#[derive(Clone, Debug)]
pub struct PickerEntry {
    pub id: u16,
    pub title: Vec<char>,
    pub category: Vec<char>,
}

/// The filter keeps an entry when it is empty, or when its title, its
/// category or its number contains it, ignoring case.
pub open spec fn entry_hit(id: u16, title: Seq<char>, category: Seq<char>, filter: Seq<char>) -> bool {
    let q = lower(filter);
    q.len() == 0 || has_sub(lower(title), q) || has_sub(lower(category), q) || has_sub(decimal(id as nat), q)
}

pub open spec fn entry_kept(e: Seq<PickerEntry>, i: int, filter: Seq<char>) -> bool {
    entry_hit(e[i].id, e[i].title@, e[i].category@, filter)
}

/// Whether the filter keeps the entry.
pub fn entry_matches(e: &PickerEntry, filter: &Vec<char>) -> (b: bool)
    ensures
        b == entry_hit(e.id, e.title@, e.category@, filter@),
{
    let q = to_lower(filter);
    if q.len() == 0 {
        return true;
    }
    contains_text(&to_lower(&e.title), &q) || contains_text(&to_lower(&e.category), &q) || contains_text(
        &decimal_chars(e.id as u32),
        &q,
    )
}

/// Entry `a` is listed before entry `b`: a lower number, or the same number
/// and earlier in the list.
pub open spec fn listed_before(e: Seq<PickerEntry>, a: usize, b: usize) -> bool {
    e[a as int].id < e[b as int].id || (e[a as int].id == e[b as int].id && a < b)
}

/// The entries the filter keeps, as indices, by ascending number (entries
/// with the same number keep their order).
pub fn entries_matching(entries: &Vec<PickerEntry>, filter: &Vec<char>) -> (r: Vec<usize>)
    ensures
        forall|k: int| 0 <= k < r@.len() ==> (#[trigger] r@[k]) < entries@.len() && entry_kept(entries@, r@[k] as int, filter@),
        forall|i: int| 0 <= i < entries@.len() && entry_kept(entries@, i, filter@) ==> r@.contains(i as usize),
        forall|a: int, b: int| 0 <= a < b < r@.len() ==> listed_before(entries@, #[trigger] r@[a], #[trigger] r@[b]),
{
    let mut out: Vec<usize> = Vec::new();
    let mut i: usize = 0;
    while i < entries.len()
        invariant
            0 <= i <= entries@.len(),
            forall|k: int| 0 <= k < out@.len() ==> (#[trigger] out@[k]) < i && entry_kept(entries@, out@[k] as int, filter@),
            forall|t: int| 0 <= t < i && entry_kept(entries@, t, filter@) ==> out@.contains(t as usize),
            forall|a: int, b: int| 0 <= a < b < out@.len() ==> listed_before(entries@, #[trigger] out@[a], #[trigger] out@[b]),
        decreases entries@.len() - i,
    {
        if entry_matches(&entries[i], filter) {
            let id = entries[i].id;
            let mut j: usize = 0;
            while j < out.len() && entries[out[j]].id <= id
                invariant
                    0 <= j <= out@.len(),
                    i < entries@.len(),
                    id == entries@[i as int].id,
                    forall|k: int| 0 <= k < out@.len() ==> (#[trigger] out@[k]) < i,
                    forall|k: int| 0 <= k < j ==> entries@[(#[trigger] out@[k]) as int].id <= id,
                decreases out@.len() - j,
            {
                j = j + 1;
            }
            let ghost o = out@;
            out.insert(j, i);
            proof {
                let n = out@;
                assert(n == o.insert(j as int, i));
                assert forall|a: int, b: int| 0 <= a < b < n.len() implies listed_before(entries@, #[trigger] n[a], #[trigger] n[b]) by {
                    if b < j {
                        assert(n[a] == o[a] && n[b] == o[b]);
                    } else if b == j {
                        assert(n[a] == o[a]);
                    } else if a < j {
                        assert(n[a] == o[a] && n[b] == o[b - 1]);
                        if b - 1 == j {
                        }
                    } else if a == j {
                        assert(n[b] == o[b - 1]);
                        assert(o[j as int] == n[j + 1]);
                        if b - 1 > j {
                            assert(listed_before(entries@, o[j as int], o[b - 1]));
                        }
                    } else {
                        assert(n[a] == o[a - 1] && n[b] == o[b - 1]);
                    }
                }
                assert forall|k: int| 0 <= k < n.len() implies (#[trigger] n[k]) < i + 1 && entry_kept(entries@, n[k] as int, filter@) by {
                    if k < j {
                        assert(n[k] == o[k]);
                    } else if k > j {
                        assert(n[k] == o[k - 1]);
                    }
                }
                assert forall|t: int| 0 <= t < i + 1 && entry_kept(entries@, t, filter@) implies n.contains(t as usize) by {
                    if t == i {
                        assert(n[j as int] == i);
                    } else {
                        assert(o.contains(t as usize));
                        let s = choose|s: int| 0 <= s < o.len() && o[s] == t as usize;
                        if s < j {
                            assert(n[s] == o[s]);
                        } else {
                            assert(n[s + 1] == o[s]);
                        }
                    }
                }
            }
        }
        i = i + 1;
    }
    out
}

} // verus!
