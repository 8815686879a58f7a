//! Selection commands of the editor: select everything of the edit mode's
//! kind, the ten numbered selection groups, the context-sensitive G key,
//! the summary of a selection, what a click in the 2D view does to the
//! selection, and the map name typed into the map options.

use vstd::prelude::*;

use crate::analysis::{upper, upper_byte};
use crate::batches::take_n;
use crate::editor::{EditMode, HighlightKind, SectorIntField};
use crate::map::{LinedefId, MapData, SectorId, ThingId, VertexId};

verus! {

// ---------------------------------------------------------------------------
// Select all.

/// Indices of the occupied slots, in slot order.
pub open spec fn live_slots<T>(s: Seq<Option<T>>) -> Seq<usize>
    decreases s.len(),
{
    if s.len() == 0 {
        Seq::empty()
    } else {
        let prev = live_slots(s.drop_last());
        match s.last() {
            Some(_) => prev.push((s.len() - 1) as usize),
            None => prev,
        }
    }
}

/// The element of the kind that `mode` edits in slot `i`.
pub open spec fn kind_of(mode: EditMode, i: usize) -> HighlightKind {
    match mode {
        EditMode::Vertices => HighlightKind::Vertex(VertexId(i)),
        EditMode::Linedefs => HighlightKind::Linedef(LinedefId(i)),
        EditMode::Sectors => HighlightKind::Sector(SectorId(i)),
        EditMode::Things => HighlightKind::Thing(ThingId(i)),
    }
}

/// The occupied slots of the arena that `mode` edits.
pub open spec fn mode_slots(map: &MapData, mode: EditMode) -> Seq<usize> {
    match mode {
        EditMode::Vertices => live_slots(map.vertices@),
        EditMode::Linedefs => live_slots(map.linedefs@),
        EditMode::Sectors => live_slots(map.sectors@),
        EditMode::Things => live_slots(map.things@),
    }
}

/// Every element of the kind that `mode` edits, in slot order.
pub open spec fn all_of_mode(map: &MapData, mode: EditMode) -> Seq<HighlightKind> {
    mode_slots(map, mode).map_values(|i: usize| kind_of(mode, i))
}

fn live_slot_ids<T>(s: &Vec<Option<T>>) -> (r: Vec<usize>)
    ensures
        r@ == live_slots(s@),
        s@.len() <= usize::MAX,
{
    let mut out: Vec<usize> = Vec::new();
    let mut i: usize = 0;
    while i < s.len()
        invariant
            0 <= i <= s@.len(),
            out@ == live_slots(s@.subrange(0, i as int)),
        decreases s@.len() - i,
    {
        assert(s@.subrange(0, i + 1).drop_last() =~= s@.subrange(0, i as int));
        if s[i].is_some() {
            out.push(i);
        }
        i = i + 1;
    }
    assert(s@.subrange(0, s@.len() as int) =~= s@);
    out
}

proof fn lemma_live_slots<T>(s: Seq<Option<T>>)
    requires
        s.len() <= usize::MAX + 1,
    ensures
        forall|a: int, b: int| 0 <= a < b < live_slots(s).len() ==> (#[trigger] live_slots(s)[a]) < (#[trigger] live_slots(s)[b]),
        forall|j: int| 0 <= j < live_slots(s).len() ==> (#[trigger] live_slots(s)[j]) < s.len(),
        forall|i: usize| #[trigger] live_slots(s).contains(i) <==> (i < s.len() && s[i as int] is Some),
    decreases s.len(),
{
    if s.len() > 0 {
        let t = s.drop_last();
        lemma_live_slots(t);
        let p = live_slots(t);
        let c = live_slots(s);
        assert forall|j: int| 0 <= j < p.len() implies c[j] == p[j] by {}
        assert forall|i: usize| #[trigger] c.contains(i) <==> (i < s.len() && s[i as int] is Some) by {
            if c.contains(i) {
                let j = choose|j: int| 0 <= j < c.len() && c[j] == i;
                if j < p.len() {
                    assert(p.contains(i));
                    assert(t[i as int] == s[i as int]);
                }
            }
            if i < s.len() && s[i as int] is Some {
                if i < s.len() - 1 {
                    assert(t[i as int] == s[i as int]);
                    assert(p.contains(i));
                    let j = choose|j: int| 0 <= j < p.len() && p[j] == i;
                    assert(c[j] == i);
                } else {
                    assert(c[c.len() - 1] == i);
                }
            }
        }
    }
}

/// Select all: every element of the kind the edit mode works on, each once.
pub fn select_all(map: &MapData, mode: EditMode) -> (r: Vec<HighlightKind>)
    ensures
        r@ == all_of_mode(map, mode),
        r@.no_duplicates(),
        forall|h: HighlightKind|
            #[trigger] r@.contains(h) <==> match h {
                HighlightKind::Vertex(v) => mode == EditMode::Vertices && v.0 < map.vertices@.len() && map.vertices@[v.0 as int] is Some,
                HighlightKind::Linedef(l) => mode == EditMode::Linedefs && l.0 < map.linedefs@.len() && map.linedefs@[l.0 as int] is Some,
                HighlightKind::Sector(x) => mode == EditMode::Sectors && x.0 < map.sectors@.len() && map.sectors@[x.0 as int] is Some,
                HighlightKind::Thing(t) => mode == EditMode::Things && t.0 < map.things@.len() && map.things@[t.0 as int] is Some,
            },
{
    let ids = match mode {
        EditMode::Vertices => live_slot_ids(&map.vertices),
        EditMode::Linedefs => live_slot_ids(&map.linedefs),
        EditMode::Sectors => live_slot_ids(&map.sectors),
        EditMode::Things => live_slot_ids(&map.things),
    };
    let mut out: Vec<HighlightKind> = Vec::new();
    let mut k: usize = 0;
    while k < ids.len()
        invariant
            0 <= k <= ids@.len(),
            ids@ == mode_slots(map, mode),
            out@ == ids@.subrange(0, k as int).map_values(|j: usize| kind_of(mode, j)),
        decreases ids@.len() - k,
    {
        let i = ids[k];
        let h = match mode {
            EditMode::Vertices => HighlightKind::Vertex(VertexId(i)),
            EditMode::Linedefs => HighlightKind::Linedef(LinedefId(i)),
            EditMode::Sectors => HighlightKind::Sector(SectorId(i)),
            EditMode::Things => HighlightKind::Thing(ThingId(i)),
        };
        out.push(h);
        assert(ids@.subrange(0, k + 1).map_values(|j: usize| kind_of(mode, j)) =~= ids@.subrange(0, k as int).map_values(
            |j: usize| kind_of(mode, j),
        ).push(kind_of(mode, i)));
        k = k + 1;
    }
    assert(ids@.subrange(0, ids@.len() as int) =~= ids@);
    assert(out@ =~= all_of_mode(map, mode));
    proof {
        let sl = mode_slots(map, mode);
        match mode {
            EditMode::Vertices => lemma_live_slots(map.vertices@),
            EditMode::Linedefs => lemma_live_slots(map.linedefs@),
            EditMode::Sectors => lemma_live_slots(map.sectors@),
            EditMode::Things => lemma_live_slots(map.things@),
        }
        assert forall|a: int, b: int| 0 <= a < out@.len() && 0 <= b < out@.len() && a != b implies out@[a] != out@[b] by {
            assert(out@[a] == kind_of(mode, sl[a]) && out@[b] == kind_of(mode, sl[b]));
            if a < b {
                assert(sl[a] < sl[b]);
            } else {
                assert(sl[b] < sl[a]);
            }
        }
        assert forall|h: HighlightKind| #[trigger] out@.contains(h) <==> match h {
            HighlightKind::Vertex(v) => mode == EditMode::Vertices && v.0 < map.vertices@.len() && map.vertices@[v.0 as int] is Some,
            HighlightKind::Linedef(l) => mode == EditMode::Linedefs && l.0 < map.linedefs@.len() && map.linedefs@[l.0 as int] is Some,
            HighlightKind::Sector(x) => mode == EditMode::Sectors && x.0 < map.sectors@.len() && map.sectors@[x.0 as int] is Some,
            HighlightKind::Thing(t) => mode == EditMode::Things && t.0 < map.things@.len() && map.things@[t.0 as int] is Some,
        } by {
            if out@.contains(h) {
                let j = choose|j: int| 0 <= j < out@.len() && out@[j] == h;
                assert(out@[j] == kind_of(mode, sl[j]));
                assert(sl.contains(sl[j]));
            }
            let idx: usize = match h {
                HighlightKind::Vertex(v) => v.0,
                HighlightKind::Linedef(l) => l.0,
                HighlightKind::Sector(x) => x.0,
                HighlightKind::Thing(t) => t.0,
            };
            if h == kind_of(mode, idx) && sl.contains(idx) {
                let j = choose|j: int| 0 <= j < sl.len() && sl[j] == idx;
                assert(out@[j] == h);
            }
        }
    }
    out
}

// ---------------------------------------------------------------------------
// Selection groups.

/// Number of selection groups (digit keys 0 to 9).
pub const GROUP_COUNT: usize = 10;

/// The groups after storing `sel` into group `idx`; an index past the last
/// group stores nothing.
pub open spec fn stored(gs: Seq<Option<Seq<HighlightKind>>>, idx: int, sel: Seq<HighlightKind>) -> Seq<Option<Seq<HighlightKind>>> {
    if 0 <= idx < gs.len() {
        gs.update(idx, Some(sel))
    } else {
        gs
    }
}

/// What recalling group `idx` gives: its stored selection, or `None` for an
/// empty group or an index past the last group.
pub open spec fn recalled(gs: Seq<Option<Seq<HighlightKind>>>, idx: int) -> Option<Seq<HighlightKind>> {
    if 0 <= idx < gs.len() {
        gs[idx]
    } else {
        None
    }
}

/// The ten numbered selection groups, each empty or holding a selection.
pub struct SelectionGroups {
    slots: Vec<Option<Vec<HighlightKind>>>,
}

impl SelectionGroups {
    /// The groups, by index.
    pub closed spec fn groups(&self) -> Seq<Option<Seq<HighlightKind>>> {
        self.slots@.map_values(|o: Option<Vec<HighlightKind>>|
            match o {
                Some(v) => Some(v@),
                None => None,
            })
    }

    /// Ten empty groups.
    pub fn new() -> (g: SelectionGroups)
        ensures
            g.groups() == Seq::new(GROUP_COUNT as nat, |i: int| None::<Seq<HighlightKind>>),
    {
        let mut slots: Vec<Option<Vec<HighlightKind>>> = Vec::new();
        let mut i: usize = 0;
        while i < GROUP_COUNT
            invariant
                0 <= i <= GROUP_COUNT,
                slots@.len() == i,
                forall|j: int| 0 <= j < i ==> slots@[j] is None,
            decreases GROUP_COUNT - i,
        {
            slots.push(None);
            i = i + 1;
        }
        let g = SelectionGroups { slots };
        assert(g.groups() =~= Seq::new(GROUP_COUNT as nat, |i: int| None::<Seq<HighlightKind>>));
        g
    }

    /// Store a copy of `sel` into group `idx` (a no-op past the last group).
    /// There are always ten groups: `new` makes ten and storing keeps them.
    pub fn assign(&mut self, idx: usize, sel: &Vec<HighlightKind>)
        ensures
            final(self).groups() == stored(old(self).groups(), idx as int, sel@),
    {
        if idx < self.slots.len() {
            let copy = sel.clone();
            assert(copy@ == sel@);
            self.slots.set(idx, Some(copy));
            assert(self.groups() =~= stored(old(self).groups(), idx as int, sel@));
        }
    }

    /// The selection stored in group `idx`, if any.
    pub fn recall(&self, idx: usize) -> (r: Option<Vec<HighlightKind>>)
        ensures
            match r {
                Some(v) => recalled(self.groups(), idx as int) == Some(v@),
                None => recalled(self.groups(), idx as int) is None,
            },
    {
        if idx < self.slots.len() {
            match &self.slots[idx] {
                Some(v) => {
                    let c = v.clone();
                    assert(c@ == v@);
                    Some(c)
                },
                None => None,
            }
        } else {
            None
        }
    }
}

/// Recalling a group gives back what was last stored into it, and storing
/// into one group leaves every other group as it was.
pub proof fn lemma_recall_after_store(gs: Seq<Option<Seq<HighlightKind>>>, i: int, j: int, sel: Seq<HighlightKind>)
    ensures
        recalled(stored(gs, i, sel), j) == if i == j && 0 <= i < gs.len() {
            Some(sel)
        } else {
            recalled(gs, j)
        },
{
}

// ---------------------------------------------------------------------------
// The G key.

/// What the G key does.
#[derive(Clone, Copy, Debug, PartialEq, Eq, Structural)]
pub enum GHotkeyAction {
    /// Make a gradient of this field across the selected sectors.
    Gradient(SectorIntField),
    /// Cycle the grid step by this many sizes.
    CycleGrid(i32),
}

pub open spec fn has_sector(sel: Seq<HighlightKind>) -> bool {
    exists|k: int| 0 <= k < sel.len() && #[trigger] sel[k] is Sector
}

/// In sectors mode with sectors selected, G makes a gradient (Ctrl+G of
/// floor heights, Shift+G of ceiling heights, G of light levels); anywhere
/// else it cycles the grid step, down with Shift and up without.
pub open spec fn g_hotkey_spec(mode: EditMode, sel: Seq<HighlightKind>, shift: bool, ctrl: bool) -> GHotkeyAction {
    if mode == EditMode::Sectors && has_sector(sel) {
        if ctrl {
            GHotkeyAction::Gradient(SectorIntField::FloorHeight)
        } else if shift {
            GHotkeyAction::Gradient(SectorIntField::CeilingHeight)
        } else {
            GHotkeyAction::Gradient(SectorIntField::Light)
        }
    } else {
        GHotkeyAction::CycleGrid(if shift { -1i32 } else { 1i32 })
    }
}

/// The action of the G key for the current edit mode and selection.
pub fn g_hotkey_action(mode: EditMode, sel: &Vec<HighlightKind>, shift: bool, ctrl: bool) -> (a: GHotkeyAction)
    ensures
        a == g_hotkey_spec(mode, sel@, shift, ctrl),
{
    let mut any = false;
    if mode == EditMode::Sectors {
        let mut k: usize = 0;
        while k < sel.len()
            invariant
                0 <= k <= sel@.len(),
                any <==> exists|j: int| 0 <= j < k && #[trigger] sel@[j] is Sector,
            decreases sel@.len() - k,
        {
            if let HighlightKind::Sector(_) = sel[k] {
                any = true;
            }
            k = k + 1;
        }
    }
    if any {
        if ctrl {
            GHotkeyAction::Gradient(SectorIntField::FloorHeight)
        } else if shift {
            GHotkeyAction::Gradient(SectorIntField::CeilingHeight)
        } else {
            GHotkeyAction::Gradient(SectorIntField::Light)
        }
    } else {
        GHotkeyAction::CycleGrid(if shift { -1 } else { 1 })
    }
}

// ---------------------------------------------------------------------------
// Map names.

/// A byte that a map name keeps: an ASCII letter, digit or underscore.
pub open spec fn name_byte_ok(b: u8) -> bool {
    (48 <= b <= 57) || (65 <= b <= 90) || (97 <= b <= 122) || b == 95
}

/// The map name kept from what was typed (its UTF-8 bytes): the letters,
/// digits and underscores, upper-cased, at most eight of them.
pub open spec fn clean_name_spec(s: Seq<u8>) -> Seq<u8> {
    take_n(upper(s.filter(|c: u8| name_byte_ok(c))), 8)
}

/// Clean a typed map name (as UTF-8 bytes) into a map marker name. Bytes of
/// characters outside ASCII are never letters, digits or underscores, so
/// they go.
pub fn clean_map_name(s: &Vec<u8>) -> (r: Vec<u8>)
    ensures
        r@ == clean_name_spec(s@),
{
    let mut kept: Vec<u8> = Vec::new();
    let mut i: usize = 0;
    while i < s.len()
        invariant
            0 <= i <= s@.len(),
            kept@ == upper(s@.subrange(0, i as int).filter(|c: u8| name_byte_ok(c))),
        decreases s@.len() - i,
    {
        let b = s[i];
        proof {
            assert(s@.subrange(0, i + 1) =~= s@.subrange(0, i as int).push(b));
            s@.subrange(0, i as int).lemma_filter_push(b, |c: u8| name_byte_ok(c));
        }
        if (48 <= b && b <= 57) || (65 <= b && b <= 90) || (97 <= b && b <= 122) || b == 95 {
            let u: u8 = if 97 <= b && b <= 122 { b - 32 } else { b };
            assert(u == upper_byte(b));
            kept.push(u);
            assert(kept@ =~= upper(s@.subrange(0, i + 1).filter(|c: u8| name_byte_ok(c))));
        } else {
            assert(s@.subrange(0, i + 1).filter(|c: u8| name_byte_ok(c)) == s@.subrange(0, i as int).filter(|c: u8| name_byte_ok(c)));
        }
        i = i + 1;
    }
    assert(s@.subrange(0, s@.len() as int) =~= s@);
    let mut out: Vec<u8> = Vec::new();
    let mut j: usize = 0;
    while j < kept.len() && j < 8
        invariant
            0 <= j <= kept@.len(),
            j <= 8,
            out@ == kept@.subrange(0, j as int),
        decreases kept@.len() - j,
    {
        out.push(kept[j]);
        assert(out@ =~= kept@.subrange(0, j + 1));
        j = j + 1;
    }
    assert(kept@.subrange(0, kept@.len() as int) =~= kept@);
    out
}

// ---------------------------------------------------------------------------
// Selection summary.

/// How many elements of each kind a selection holds.
#[derive(Clone, Copy, Debug, PartialEq, Eq, Structural)]
pub struct SelectionCounts {
    pub vertices: usize,
    pub linedefs: usize,
    pub sectors: usize,
    pub things: usize,
}

/// The number of elements of `sel` that edit mode `mode` works on.
pub open spec fn count_kind(sel: Seq<HighlightKind>, mode: EditMode) -> nat
    decreases sel.len(),
{
    if sel.len() == 0 {
        0
    } else {
        count_kind(sel.drop_last(), mode) + if crate::editor::mode_matches(mode, sel.last()) { 1nat } else { 0nat }
    }
}

/// Count the selection by kind, for the summary shown when several elements
/// are selected.
pub fn selection_counts(sel: &Vec<HighlightKind>) -> (c: SelectionCounts)
    ensures
        c.vertices == count_kind(sel@, EditMode::Vertices),
        c.linedefs == count_kind(sel@, EditMode::Linedefs),
        c.sectors == count_kind(sel@, EditMode::Sectors),
        c.things == count_kind(sel@, EditMode::Things),
{
    let mut c = SelectionCounts { vertices: 0, linedefs: 0, sectors: 0, things: 0 };
    let mut i: usize = 0;
    while i < sel.len()
        invariant
            0 <= i <= sel@.len(),
            c.vertices == count_kind(sel@.subrange(0, i as int), EditMode::Vertices),
            c.linedefs == count_kind(sel@.subrange(0, i as int), EditMode::Linedefs),
            c.sectors == count_kind(sel@.subrange(0, i as int), EditMode::Sectors),
            c.things == count_kind(sel@.subrange(0, i as int), EditMode::Things),
            c.vertices + c.linedefs + c.sectors + c.things == i,
        decreases sel@.len() - i,
    {
        assert(sel@.subrange(0, i + 1).drop_last() =~= sel@.subrange(0, i as int));
        match sel[i] {
            HighlightKind::Vertex(_) => c.vertices = c.vertices + 1,
            HighlightKind::Linedef(_) => c.linedefs = c.linedefs + 1,
            HighlightKind::Sector(_) => c.sectors = c.sectors + 1,
            HighlightKind::Thing(_) => c.things = c.things + 1,
        }
        i = i + 1;
    }
    assert(sel@.subrange(0, sel@.len() as int) =~= sel@);
    c
}

/// Every selected element is counted under exactly one kind: the four
/// counts add up to the size of the selection.
pub proof fn lemma_counts_cover_selection(sel: Seq<HighlightKind>)
    ensures
        count_kind(sel, EditMode::Vertices) + count_kind(sel, EditMode::Linedefs) + count_kind(sel, EditMode::Sectors)
            + count_kind(sel, EditMode::Things) == sel.len(),
    decreases sel.len(),
{
    if sel.len() > 0 {
        lemma_counts_cover_selection(sel.drop_last());
    }
}

// ---------------------------------------------------------------------------
// Clicks in the 2D view.

/// Where a click in the 2D view goes.
#[derive(Clone, Copy, Debug, PartialEq, Eq, Structural)]
pub enum ClickRoute {
    /// The drawing tool takes it.
    Drawing,
    /// A double click on empty space in things mode places a thing.
    PlaceThing,
    /// A plain click on empty space in vertices mode tries to split the
    /// linedef under it with a new vertex; where there is none, the click
    /// goes on to the selection.
    InsertVertexOnLine,
    /// The click changes the selection.
    Select,
}

pub open spec fn click_route_spec(drawing: bool, is_double: bool, hit: Option<HighlightKind>, mode: EditMode, shift: bool) -> ClickRoute {
    if drawing {
        ClickRoute::Drawing
    } else if is_double && hit is None && mode == EditMode::Things {
        ClickRoute::PlaceThing
    } else if hit is None && mode == EditMode::Vertices && !shift {
        ClickRoute::InsertVertexOnLine
    } else {
        ClickRoute::Select
    }
}

/// Route a click: to the drawing tool while drawing, else to thing placement,
/// vertex insertion or the selection.
pub fn click_route(drawing: bool, is_double: bool, hit: Option<HighlightKind>, mode: EditMode, shift: bool) -> (r: ClickRoute)
    ensures
        r == click_route_spec(drawing, is_double, hit, mode, shift),
{
    if drawing {
        ClickRoute::Drawing
    } else if is_double && hit.is_none() && mode == EditMode::Things {
        ClickRoute::PlaceThing
    } else if hit.is_none() && mode == EditMode::Vertices && !shift {
        ClickRoute::InsertVertexOnLine
    } else {
        ClickRoute::Select
    }
}

/// The selection after a click that hit `hit` (or nothing): with Shift the
/// hit element is toggled in or out; without, the selection becomes just the
/// hit element, or empty on a miss.
pub open spec fn clicked_selection(sel: Set<HighlightKind>, hit: Option<HighlightKind>, additive: bool) -> Set<HighlightKind> {
    match hit {
        Some(h) => if additive {
            if sel.contains(h) {
                sel.remove(h)
            } else {
                sel.insert(h)
            }
        } else {
            Set::empty().insert(h)
        },
        None => if additive {
            sel
        } else {
            Set::empty()
        },
    }
}

/// `sel` without `h`, in order.
fn without(sel: &Vec<HighlightKind>, h: HighlightKind) -> (r: Vec<HighlightKind>)
    requires
        sel@.no_duplicates(),
    ensures
        r@.no_duplicates(),
        r@.to_set() == sel@.to_set().remove(h),
{
    let mut out: Vec<HighlightKind> = Vec::new();
    let mut i: usize = 0;
    while i < sel.len()
        invariant
            0 <= i <= sel@.len(),
            sel@.no_duplicates(),
            out@.no_duplicates(),
            forall|x: HighlightKind| out@.contains(x) <==> (sel@.subrange(0, i as int).contains(x) && x != h),
        decreases sel@.len() - i,
    {
        let x = sel[i];
        let ghost before = out@;
        let ghost lo = sel@.subrange(0, i as int);
        let ghost hi = sel@.subrange(0, i + 1);
        proof {
            assert(!lo.contains(x)) by {
                if lo.contains(x) {
                    let j = choose|j: int| 0 <= j < lo.len() && lo[j] == x;
                    assert(sel@[j] == sel@[i as int]);
                }
            }
            assert(hi =~= lo.push(x));
        }
        if x != h {
            out.push(x);
            proof {
                assert forall|a: int, b: int| 0 <= a < b < out@.len() implies out@[a] != out@[b] by {
                    if b == out@.len() - 1 {
                        assert(before.contains(out@[a]));
                    } else {
                        assert(out@[a] == before[a] && out@[b] == before[b]);
                    }
                }
                assert forall|y: HighlightKind| out@.contains(y) <==> (hi.contains(y) && y != h) by {
                    assert(out@[out@.len() - 1] == x);
                    assert(hi[i as int] == x);
                    if out@.contains(y) {
                        let j = choose|j: int| 0 <= j < out@.len() && out@[j] == y;
                        if j < before.len() {
                            assert(before[j] == y);
                            assert(before.contains(y));
                            assert(lo.contains(y));
                            let k = choose|k: int| 0 <= k < lo.len() && lo[k] == y;
                            assert(hi[k] == y);
                        }
                    }
                    if hi.contains(y) && y != h {
                        let k = choose|k: int| 0 <= k < hi.len() && hi[k] == y;
                        if k < i {
                            assert(lo[k] == y);
                            assert(before.contains(y));
                            let j = choose|j: int| 0 <= j < before.len() && before[j] == y;
                            assert(out@[j] == y);
                        }
                    }
                }
            }
        } else {
            proof {
                assert forall|y: HighlightKind| out@.contains(y) <==> (hi.contains(y) && y != h) by {
                }
            }
        }
        i = i + 1;
    }
    assert(sel@.subrange(0, sel@.len() as int) =~= sel@);
    assert(out@.to_set() =~= sel@.to_set().remove(h));
    out
}

/// The selection after a click, as `clicked_selection` says; a toggled-in
/// element goes to the end.
pub fn click_select(sel: &Vec<HighlightKind>, hit: Option<HighlightKind>, additive: bool) -> (r: Vec<HighlightKind>)
    requires
        sel@.no_duplicates(),
    ensures
        r@.no_duplicates(),
        r@.to_set() == clicked_selection(sel@.to_set(), hit, additive),
{
    match hit {
        Some(h) => {
            if additive {
                let mut present = false;
                let mut i: usize = 0;
                while i < sel.len()
                    invariant
                        0 <= i <= sel@.len(),
                        present <==> sel@.subrange(0, i as int).contains(h),
                    decreases sel@.len() - i,
                {
                    proof {
                        let hi = sel@.subrange(0, i + 1);
                        let lo = sel@.subrange(0, i as int);
                        if lo.contains(h) {
                            let j = choose|j: int| 0 <= j < lo.len() && lo[j] == h;
                            assert(hi[j] == h);
                        }
                        if hi.contains(h) {
                            let j = choose|j: int| 0 <= j < hi.len() && hi[j] == h;
                            if j < i {
                                assert(lo[j] == h);
                            }
                        }
                    }
                    if sel[i] == h {
                        present = true;
                        assert(sel@.subrange(0, i + 1)[i as int] == h);
                    }
                    i = i + 1;
                }
                assert(sel@.subrange(0, sel@.len() as int) =~= sel@);
                if present {
                    without(sel, h)
                } else {
                    let mut r = sel.clone();
                    assert(r@ == sel@);
                    r.push(h);
                    proof {
                        assert forall|a: int, b: int| 0 <= a < b < r@.len() implies r@[a] != r@[b] by {
                            if b == r@.len() - 1 {
                                assert(r@[a] == sel@[a]);
                                assert(sel@.contains(r@[a]));
                            } else {
                                assert(r@[a] == sel@[a] && r@[b] == sel@[b]);
                            }
                        }
                        assert forall|y: HighlightKind| r@.contains(y) <==> (sel@.contains(y) || y == h) by {
                            if r@.contains(y) {
                                let j = choose|j: int| 0 <= j < r@.len() && r@[j] == y;
                                if j < sel@.len() {
                                    assert(sel@[j] == y);
                                }
                            }
                            if sel@.contains(y) {
                                let j = choose|j: int| 0 <= j < sel@.len() && sel@[j] == y;
                                assert(r@[j] == y);
                            }
                            assert(r@[r@.len() - 1] == h);
                        }
                        assert(r@.to_set() =~= sel@.to_set().insert(h));
                    }
                    r
                }
            } else {
                let r = vec![h];
                assert(r@.to_set() =~= Set::empty().insert(h));
                r
            }
        },
        None => {
            if additive {
                let r = sel.clone();
                assert(r@ == sel@);
                r
            } else {
                let r: Vec<HighlightKind> = Vec::new();
                assert(r@.to_set() =~= Set::<HighlightKind>::empty());
                r
            }
        },
    }
}

/// Shift-clicking the same element twice leaves the selection as it was.
pub proof fn lemma_shift_click_twice(sel: Set<HighlightKind>, h: HighlightKind)
    ensures
        clicked_selection(clicked_selection(sel, Some(h), true), Some(h), true) == sel,
{
    if sel.contains(h) {
        assert(sel.remove(h).insert(h) =~= sel);
    } else {
        assert(sel.insert(h).remove(h) =~= sel);
    }
}

} // verus!
