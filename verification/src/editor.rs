//! The editor's modes, settings and the pure decisions its message handler
//! takes: which settings a toggle flips, which grid size comes next, which
//! selected elements survive a mode change, how a sector field is nudged.

use vstd::prelude::*;

use crate::map::{LinedefId, MapData, SectorId, ThingId, VertexId};

verus! {

#[derive(Clone, Copy, Debug, PartialEq, Eq, Structural)]
pub enum Mode {
    View2D,
    View3D,
}

#[derive(Clone, Copy, Debug, PartialEq, Eq, Structural)]
pub enum EditMode {
    Vertices,
    Linedefs,
    Sectors,
    Things,
}

impl EditMode {
    pub fn label(self) -> (s: &'static str)
        ensures
            s@ == match self {
                EditMode::Vertices => "Vertices"@,
                EditMode::Linedefs => "Linedefs"@,
                EditMode::Sectors => "Sectors"@,
                EditMode::Things => "Things"@,
            },
    {
        match self {
            EditMode::Vertices => "Vertices",
            EditMode::Linedefs => "Linedefs",
            EditMode::Sectors => "Sectors",
            EditMode::Things => "Things",
        }
    }
}

impl Default for EditMode {
    fn default() -> (m: EditMode)
        ensures
            m == EditMode::Linedefs,
    {
        EditMode::Linedefs
    }
}

/// Which node builder saving uses.
#[derive(Clone, Copy, Debug, PartialEq, Eq, Structural)]
pub enum NodeBuilderKind {
    Builtin,
    Zdbsp,
}

impl NodeBuilderKind {
    pub fn label(self) -> (s: &'static str)
        ensures
            s@ == match self {
                NodeBuilderKind::Builtin => "Built-in (Rust)"@,
                NodeBuilderKind::Zdbsp => "zdbsp (external)"@,
            },
    {
        match self {
            NodeBuilderKind::Builtin => "Built-in (Rust)",
            NodeBuilderKind::Zdbsp => "zdbsp (external)",
        }
    }
}

/// The node builder to run, once the persisted choice is resolved.
#[derive(Clone, Debug)]
pub enum NodeBuilder {
    Builtin,
    Zdbsp { exe: String, extra_args: Vec<String> },
}

/// 2D viewport fill mode.
#[derive(Clone, Copy, Debug, PartialEq, Eq, Structural)]
pub enum View2DMode {
    Floor,
    Ceiling,
    Brightness,
    Wireframe,
}

impl View2DMode {
    pub fn label(self) -> (s: &'static str)
        ensures
            s@ == match self {
                View2DMode::Floor => "Floor textures"@,
                View2DMode::Ceiling => "Ceiling textures"@,
                View2DMode::Brightness => "Brightness levels"@,
                View2DMode::Wireframe => "Wireframe"@,
            },
    {
        match self {
            View2DMode::Floor => "Floor textures",
            View2DMode::Ceiling => "Ceiling textures",
            View2DMode::Brightness => "Brightness levels",
            View2DMode::Wireframe => "Wireframe",
        }
    }
}

/// Built-in colour themes.
#[derive(Clone, Copy, Debug, PartialEq, Eq, Structural)]
pub enum ThemeKind {
    Dark,
    Light,
    Nord,
    Dracula,
    Gruvbox,
    Solarized,
}

impl Default for ThemeKind {
    fn default() -> (t: ThemeKind)
        ensures
            t == ThemeKind::Dark,
    {
        ThemeKind::Dark
    }
}

impl ThemeKind {
    pub fn label(self) -> (s: &'static str)
        ensures
            s@ == match self {
                ThemeKind::Dark => "Dark"@,
                ThemeKind::Light => "Light"@,
                ThemeKind::Nord => "Nord"@,
                ThemeKind::Dracula => "Dracula"@,
                ThemeKind::Gruvbox => "Gruvbox"@,
                ThemeKind::Solarized => "Solarized"@,
            },
    {
        match self {
            ThemeKind::Dark => "Dark",
            ThemeKind::Light => "Light",
            ThemeKind::Nord => "Nord",
            ThemeKind::Dracula => "Dracula",
            ThemeKind::Gruvbox => "Gruvbox",
            ThemeKind::Solarized => "Solarized",
        }
    }

    /// Every theme, in menu order.
    pub fn all() -> (r: Vec<ThemeKind>)
        ensures
            r@ == seq![
                ThemeKind::Dark,
                ThemeKind::Light,
                ThemeKind::Nord,
                ThemeKind::Dracula,
                ThemeKind::Gruvbox,
                ThemeKind::Solarized,
            ],
    {
        let r = vec![
            ThemeKind::Dark,
            ThemeKind::Light,
            ThemeKind::Nord,
            ThemeKind::Dracula,
            ThemeKind::Gruvbox,
            ThemeKind::Solarized,
        ];
        assert(r@ =~= seq![
            ThemeKind::Dark,
            ThemeKind::Light,
            ThemeKind::Nord,
            ThemeKind::Dracula,
            ThemeKind::Gruvbox,
            ThemeKind::Solarized,
        ]);
        r
    }
}

/// Most-recently opened paths kept in the settings.
pub const MAX_RECENT: usize = 8;

/// Persisted editor settings.
#[derive(Clone, Debug)]
pub struct Settings {
    pub show_textures: bool,
    pub show_sprites: bool,
    pub show_grid: bool,
    pub show_things: bool,
    pub always_show_vertices: bool,
    pub snap_to_grid: bool,
    /// Fixed grid spacing in map units, or `None` for the zoom-derived step.
    pub grid_size: Option<u32>,
    /// Most-recently opened paths, newest first, at most `MAX_RECENT`.
    pub recent_files: Vec<String>,
    pub engine_path: Option<String>,
    pub iwad_path: Option<String>,
    pub theme: ThemeKind,
    pub view_mode: View2DMode,
    pub full_brightness: bool,
    pub show_3d_overlay: bool,
    pub node_builder: NodeBuilderKind,
    pub zdbsp_path: Option<String>,
}

/// Value of a boolean setting whose stored field is absent.
pub fn default_true() -> (b: bool)
    ensures
        b,
{
    true
}

impl Settings {
    pub open spec fn is_default(&self) -> bool {
        &&& self.show_textures
        &&& self.show_sprites
        &&& self.show_grid
        &&& self.show_things
        &&& !self.always_show_vertices
        &&& self.snap_to_grid
        &&& self.grid_size is None
        &&& self.recent_files@.len() == 0
        &&& self.engine_path is None
        &&& self.iwad_path is None
        &&& self.theme == ThemeKind::Dark
        &&& self.view_mode == View2DMode::Floor
        &&& !self.full_brightness
        &&& self.show_3d_overlay
        &&& self.node_builder == NodeBuilderKind::Builtin
        &&& self.zdbsp_path is None
    }

    pub fn default_settings() -> (s: Settings)
        ensures
            s.is_default(),
    {
        Settings {
            show_textures: true,
            show_sprites: true,
            show_grid: true,
            show_things: true,
            always_show_vertices: false,
            snap_to_grid: true,
            grid_size: None,
            recent_files: Vec::new(),
            engine_path: None,
            iwad_path: None,
            theme: ThemeKind::Dark,
            view_mode: View2DMode::Floor,
            full_brightness: false,
            show_3d_overlay: true,
            node_builder: NodeBuilderKind::Builtin,
            zdbsp_path: None,
        }
    }

    /// The node builder the persisted choice stands for: zdbsp only when a
    /// zdbsp path is set, the built-in builder otherwise.
    pub fn make_node_builder(&self) -> (b: NodeBuilder)
        ensures
            match b {
                NodeBuilder::Builtin => self.node_builder == NodeBuilderKind::Builtin
                    || self.zdbsp_path is None,
                NodeBuilder::Zdbsp { exe, extra_args } => {
                    &&& self.node_builder == NodeBuilderKind::Zdbsp
                    &&& self.zdbsp_path matches Some(p) && exe@ == p@
                    &&& extra_args@.len() == 0
                },
            },
    {
        match self.node_builder {
            NodeBuilderKind::Builtin => NodeBuilder::Builtin,
            NodeBuilderKind::Zdbsp => match &self.zdbsp_path {
                Some(p) => NodeBuilder::Zdbsp { exe: p.clone(), extra_args: Vec::new() },
                None => NodeBuilder::Builtin,
            },
        }
    }

    /// Move `path` to the front of `recent_files`, drop its other copies,
    /// and keep at most `MAX_RECENT` entries.
    pub fn push_recent(&mut self, path: String)
        ensures
            final(self).recent_files@.map_values(|p: String| p@) == recent_after(
                old(self).recent_files@.map_values(|p: String| p@),
                path@,
            ),
            final(self).same_except_recent(*old(self)),
    {
        let ghost olds = self.recent_files@.map_values(|p: String| p@);
        let mut kept: Vec<String> = Vec::new();
        kept.push(path.clone());
        let mut i: usize = 0;
        let n = self.recent_files.len();
        while i < n
            invariant
                n == self.recent_files@.len(),
                olds == self.recent_files@.map_values(|p: String| p@),
                0 <= i <= n,
                kept@.map_values(|p: String| p@) == seq![path@] + olds.subrange(0, i as int).filter(
                    |p: Seq<char>| p != path@,
                ),
            decreases n - i,
        {
            let ghost prev = kept@.map_values(|p: String| p@);
            let eq = self.recent_files[i] == path;
            if !eq {
                let c = self.recent_files[i].clone();
                kept.push(c);
                assert(kept@.map_values(|p: String| p@) =~= prev.push(olds[i as int]));
            } else {
                assert(kept@.map_values(|p: String| p@) =~= prev);
            }
            proof {
                let f = |p: Seq<char>| p != path@;
                assert(olds.subrange(0, i + 1) =~= olds.subrange(0, i as int).push(olds[i as int]));
                olds.subrange(0, i as int).lemma_filter_push(olds[i as int], f);
                assert(olds.subrange(0, i as int).push(olds[i as int]).filter(f) == if f(olds[i as int]) {
                    olds.subrange(0, i as int).filter(f).push(olds[i as int])
                } else {
                    olds.subrange(0, i as int).filter(f)
                });
                assert(kept@.map_values(|p: String| p@) =~= seq![path@] + olds.subrange(0, i + 1).filter(f));
            }
            i = i + 1;
        }
        assert(olds.subrange(0, n as int) =~= olds);
        kept.truncate(MAX_RECENT);
        proof {
            let full = seq![path@] + olds.filter(|p: Seq<char>| p != path@);
            assert(kept@.map_values(|p: String| p@) =~= if full.len() > MAX_RECENT {
                full.subrange(0, MAX_RECENT as int)
            } else {
                full
            });
        }
        self.recent_files = kept;
    }

    /// Every field other than the recent-files list is the same.
    pub open spec fn same_except_recent(&self, other: Settings) -> bool {
        &&& self.show_textures == other.show_textures
        &&& self.show_sprites == other.show_sprites
        &&& self.show_grid == other.show_grid
        &&& self.show_things == other.show_things
        &&& self.always_show_vertices == other.always_show_vertices
        &&& self.snap_to_grid == other.snap_to_grid
        &&& self.grid_size == other.grid_size
        &&& self.engine_path == other.engine_path
        &&& self.iwad_path == other.iwad_path
        &&& self.theme == other.theme
        &&& self.view_mode == other.view_mode
        &&& self.full_brightness == other.full_brightness
        &&& self.show_3d_overlay == other.show_3d_overlay
        &&& self.node_builder == other.node_builder
        &&& self.zdbsp_path == other.zdbsp_path
    }
}

/// The recent-files list after opening `path`: `path` first, then the other
/// entries in their old order, cut to `MAX_RECENT`.
pub open spec fn recent_after(old_list: Seq<Seq<char>>, path: Seq<char>) -> Seq<Seq<char>> {
    let full = seq![path] + old_list.filter(|p: Seq<char>| p != path);
    if full.len() > MAX_RECENT {
        full.subrange(0, MAX_RECENT as int)
    } else {
        full
    }
}

/// After opening a path it is the newest entry, it occurs once, and the list
/// never grows past `MAX_RECENT`.
pub proof fn lemma_recent_front_unique_capped(old_list: Seq<Seq<char>>, path: Seq<char>)
    ensures
        recent_after(old_list, path).len() >= 1,
        recent_after(old_list, path)[0] == path,
        recent_after(old_list, path).len() <= MAX_RECENT,
        forall|k: int| 1 <= k < recent_after(old_list, path).len() ==> recent_after(old_list, path)[k] != path,
{
    let f = |p: Seq<char>| p != path;
    let filtered = old_list.filter(f);
    let full = seq![path] + filtered;
    assert forall|k: int| 1 <= k < full.len() implies full[k] != path by {
        assert(full[k] == filtered[k - 1]);
        old_list.lemma_filter_pred(f, k - 1);
    }
}

/// A boolean setting that a menu entry or hotkey toggles.
#[derive(Clone, Copy, Debug, PartialEq, Eq, Structural)]
pub enum SettingKey {
    ShowTextures,
    ShowSprites,
    ShowGrid,
    ShowThings,
    AlwaysShowVertices,
    SnapToGrid,
}

impl SettingKey {
    pub fn label(self) -> (s: &'static str)
        ensures
            s@ == match self {
                SettingKey::ShowTextures => "Show sector textures (flats)"@,
                SettingKey::ShowSprites => "Show thing sprites (vs colored placeholders)"@,
                SettingKey::ShowGrid => "Show grid"@,
                SettingKey::ShowThings => "Show things"@,
                SettingKey::AlwaysShowVertices => "Always show vertex dots"@,
                SettingKey::SnapToGrid => "Snap to grid (drawing + vertex drag)"@,
            },
    {
        match self {
            SettingKey::ShowTextures => "Show sector textures (flats)",
            SettingKey::ShowSprites => "Show thing sprites (vs colored placeholders)",
            SettingKey::ShowGrid => "Show grid",
            SettingKey::ShowThings => "Show things",
            SettingKey::AlwaysShowVertices => "Always show vertex dots",
            SettingKey::SnapToGrid => "Snap to grid (drawing + vertex drag)",
        }
    }

    /// The setting's field, as a value.
    pub open spec fn field(self, s: Settings) -> bool {
        match self {
            SettingKey::ShowTextures => s.show_textures,
            SettingKey::ShowSprites => s.show_sprites,
            SettingKey::ShowGrid => s.show_grid,
            SettingKey::ShowThings => s.show_things,
            SettingKey::AlwaysShowVertices => s.always_show_vertices,
            SettingKey::SnapToGrid => s.snap_to_grid,
        }
    }

    pub fn get(self, s: &Settings) -> (b: bool)
        ensures
            b == self.field(*s),
    {
        match self {
            SettingKey::ShowTextures => s.show_textures,
            SettingKey::ShowSprites => s.show_sprites,
            SettingKey::ShowGrid => s.show_grid,
            SettingKey::ShowThings => s.show_things,
            SettingKey::AlwaysShowVertices => s.always_show_vertices,
            SettingKey::SnapToGrid => s.snap_to_grid,
        }
    }

    pub fn set(self, s: &mut Settings, v: bool)
        ensures
            self.field(*final(s)) == v,
            forall|k: SettingKey| k != self ==> k.field(*final(s)) == k.field(*old(s)),
            final(s).grid_size == old(s).grid_size,
            final(s).recent_files@ == old(s).recent_files@,
            final(s).engine_path == old(s).engine_path,
            final(s).iwad_path == old(s).iwad_path,
            final(s).theme == old(s).theme,
            final(s).view_mode == old(s).view_mode,
            final(s).full_brightness == old(s).full_brightness,
            final(s).show_3d_overlay == old(s).show_3d_overlay,
            final(s).node_builder == old(s).node_builder,
            final(s).zdbsp_path == old(s).zdbsp_path,
    {
        match self {
            SettingKey::ShowTextures => s.show_textures = v,
            SettingKey::ShowSprites => s.show_sprites = v,
            SettingKey::ShowGrid => s.show_grid = v,
            SettingKey::ShowThings => s.show_things = v,
            SettingKey::AlwaysShowVertices => s.always_show_vertices = v,
            SettingKey::SnapToGrid => s.snap_to_grid = v,
        }
    }
}

/// Toggling a setting twice gives back the value it started with, and
/// toggling never touches another boolean setting.
pub proof fn lemma_toggle_twice(key: SettingKey, s0: Settings, s1: Settings, s2: Settings)
    requires
        key.field(s1) == !key.field(s0),
        forall|k: SettingKey| k != key ==> k.field(s1) == k.field(s0),
        key.field(s2) == !key.field(s1),
        forall|k: SettingKey| k != key ==> k.field(s2) == k.field(s1),
    ensures
        forall|k: SettingKey| k.field(s2) == k.field(s0),
{
}

// ---------------------------------------------------------------------------
// Grid sizes.

/// Fixed grid sizes the user cycles through; `None` is the zoom-derived step.
pub open spec fn grid_steps() -> Seq<Option<u32>> {
    seq![None, Some(8u32), Some(16u32), Some(32u32), Some(64u32), Some(128u32), Some(256u32), Some(512u32)]
}

/// Position of `size` in the cycle, or 0 when it is not there.
pub open spec fn grid_index(size: Option<u32>) -> int {
    if grid_steps().contains(size) {
        choose|i: int| 0 <= i < grid_steps().len() && grid_steps()[i] == size
    } else {
        0
    }
}

proof fn lemma_grid_steps_distinct()
    ensures
        grid_steps().len() == 8,
        forall|i: int, j: int| 0 <= i < 8 && 0 <= j < 8 && grid_steps()[i] == grid_steps()[j] ==> i == j,
{
    let g = grid_steps();
    assert(g[0] == None::<u32>);
    assert(g[1] == Some(8u32));
    assert(g[2] == Some(16u32));
    assert(g[3] == Some(32u32));
    assert(g[4] == Some(64u32));
    assert(g[5] == Some(128u32));
    assert(g[6] == Some(256u32));
    assert(g[7] == Some(512u32));
}

fn grid_step_at(i: usize) -> (r: Option<u32>)
    requires
        i < 8,
    ensures
        r == grid_steps()[i as int],
{
    match i {
        0 => None,
        1 => Some(8),
        2 => Some(16),
        3 => Some(32),
        4 => Some(64),
        5 => Some(128),
        6 => Some(256),
        _ => Some(512),
    }
}

/// The grid size `delta` positions further along the cycle (wrapping).
pub fn cycle_grid_step(current: Option<u32>, delta: i32) -> (r: Option<u32>)
    ensures
        r == grid_steps()[(grid_index(current) + delta) % 8],
{
    let mut pos: usize = 0;
    let mut i: usize = 0;
    let mut found = false;
    while i < 8
        invariant
            0 <= i <= 8,
            pos < 8,
            !found ==> pos == 0,
            !found ==> forall|j: int| 0 <= j < i ==> grid_steps()[j] != current,
            found ==> pos < 8 && grid_steps()[pos as int] == current,
        decreases 8 - i,
    {
        if !found && grid_step_at(i) == current {
            pos = i;
            found = true;
        }
        i = i + 1;
    }
    proof {
        lemma_grid_steps_distinct();
        if found {
            assert(grid_steps().contains(current));
            let c = grid_index(current);
            assert(grid_steps()[c] == current);
            assert(c == pos);
        } else {
            assert(!grid_steps().contains(current));
        }
    }
    let t: i64 = pos as i64 + delta as i64 + 2147483648;
    let idx: u64 = (t as u64) % 8;
    proof {
        let g = grid_index(current);
        let d = delta as int;
        assert(pos == g);
        assert(t == g + d + 2147483648);
        assert(2147483648 == 8 * 268435456);
        assert((g + d + 8 * 268435456) % 8 == (g + d) % 8) by (nonlinear_arith);
    }
    grid_step_at(idx as usize)
}

/// Cycling forward and then back by the same amount returns to the start
/// when the start is one of the fixed steps.
pub proof fn lemma_cycle_round_trip(current: Option<u32>, delta: int)
    requires
        grid_steps().contains(current),
    ensures
        grid_steps()[(grid_index(grid_steps()[(grid_index(current) + delta) % 8]) - delta) % 8] == current,
{
    lemma_grid_steps_distinct();
    let i = grid_index(current);
    let j = (i + delta) % 8;
    let nxt = grid_steps()[j];
    assert(grid_steps().contains(nxt));
    let jj = grid_index(nxt);
    assert(grid_steps()[jj] == nxt);
    assert(jj == j);
    assert((j - delta) % 8 == i);
}

// ---------------------------------------------------------------------------
// Selections.

/// An element of the map the cursor is over or that is selected.
#[derive(Clone, Copy, Debug, PartialEq, Eq, Structural)]
pub enum HighlightKind {
    Vertex(VertexId),
    Linedef(LinedefId),
    Sector(SectorId),
    Thing(ThingId),
}

pub open spec fn mode_matches(mode: EditMode, h: HighlightKind) -> bool {
    match (mode, h) {
        (EditMode::Vertices, HighlightKind::Vertex(_)) => true,
        (EditMode::Linedefs, HighlightKind::Linedef(_)) => true,
        (EditMode::Sectors, HighlightKind::Sector(_)) => true,
        (EditMode::Things, HighlightKind::Thing(_)) => true,
        _ => false,
    }
}

/// Whether `h` is the kind of element that edit mode `mode` selects.
pub fn edit_mode_matches(mode: EditMode, h: HighlightKind) -> (b: bool)
    ensures
        b == mode_matches(mode, h),
{
    match (mode, h) {
        (EditMode::Vertices, HighlightKind::Vertex(_)) => true,
        (EditMode::Linedefs, HighlightKind::Linedef(_)) => true,
        (EditMode::Sectors, HighlightKind::Sector(_)) => true,
        (EditMode::Things, HighlightKind::Thing(_)) => true,
        _ => false,
    }
}

/// The selection that survives switching to `mode`: the elements of that
/// mode's kind, in their order.
pub fn retain_for_mode(sel: &Vec<HighlightKind>, mode: EditMode) -> (r: Vec<HighlightKind>)
    ensures
        r@ == sel@.filter(|h: HighlightKind| mode_matches(mode, h)),
{
    let mut out: Vec<HighlightKind> = Vec::new();
    let mut i: usize = 0;
    while i < sel.len()
        invariant
            0 <= i <= sel@.len(),
            out@ == sel@.subrange(0, i as int).filter(|h: HighlightKind| mode_matches(mode, h)),
        decreases sel@.len() - i,
    {
        let h = sel[i];
        if edit_mode_matches(mode, h) {
            out.push(h);
        }
        proof {
            let f = |h: HighlightKind| mode_matches(mode, h);
            assert(sel@.subrange(0, i + 1) =~= sel@.subrange(0, i as int).push(sel@[i as int]));
            sel@.subrange(0, i as int).lemma_filter_push(sel@[i as int], f);
        }
        i = i + 1;
    }
    assert(sel@.subrange(0, sel@.len() as int) =~= sel@);
    out
}

/// The editor's mode, selection and hover after asking for mode `new`: when
/// the mode changes, the selection keeps only the new mode's elements, the
/// hover is dropped and the view must be redrawn (the flag); asking for the
/// current mode changes nothing.
pub fn switch_edit_mode(
    current: EditMode,
    new: EditMode,
    sel: &Vec<HighlightKind>,
    hover: Option<HighlightKind>,
) -> (r: (EditMode, Vec<HighlightKind>, Option<HighlightKind>, bool))
    ensures
        current == new ==> r.0 == current && r.1@ == sel@ && r.2 == hover && !r.3,
        current != new ==> r.0 == new && r.1@ == sel@.filter(|h: HighlightKind| mode_matches(new, h)) && r.2
            is None && r.3,
{
    if current == new {
        (current, sel.clone(), hover, false)
    } else {
        (new, retain_for_mode(sel, new), None, true)
    }
}

/// The sector ids among a selection, in selection order.
pub fn selected_sectors(sel: &Vec<HighlightKind>) -> (r: Vec<SectorId>)
    ensures
        r@ == sectors_in(sel@),
{
    let mut out: Vec<SectorId> = Vec::new();
    let mut i: usize = 0;
    while i < sel.len()
        invariant
            0 <= i <= sel@.len(),
            out@ == sectors_in(sel@.subrange(0, i as int)),
        decreases sel@.len() - i,
    {
        if let HighlightKind::Sector(s) = sel[i] {
            out.push(s);
        }
        assert(sel@.subrange(0, i + 1).drop_last() =~= sel@.subrange(0, i as int));
        i = i + 1;
    }
    assert(sel@.subrange(0, sel@.len() as int) =~= sel@);
    out
}

pub open spec fn sectors_in(sel: Seq<HighlightKind>) -> Seq<SectorId>
    decreases sel.len(),
{
    if sel.len() == 0 {
        Seq::empty()
    } else {
        match sel.last() {
            HighlightKind::Sector(s) => sectors_in(sel.drop_last()).push(s),
            _ => sectors_in(sel.drop_last()),
        }
    }
}

// ---------------------------------------------------------------------------
// Sector field nudges.

/// An integer field of a sector that the editor adjusts.
#[derive(Clone, Copy, Debug, PartialEq, Eq, Structural)]
pub enum SectorIntField {
    FloorHeight,
    CeilingHeight,
    Light,
    Tag,
    Special,
}

/// One sector field change: the sector, the field, its old and new value.
#[derive(Clone, Copy, Debug, PartialEq, Eq, Structural)]
pub struct SectorFieldChange {
    pub id: SectorId,
    pub field: SectorIntField,
    pub old: i32,
    pub new: i32,
}

pub open spec fn field_value(sec: crate::map::MapSector, field: SectorIntField) -> i32 {
    match field {
        SectorIntField::FloorHeight => sec.floor_height as i32,
        SectorIntField::CeilingHeight => sec.ceiling_height as i32,
        SectorIntField::Light => sec.light as i32,
        SectorIntField::Tag => sec.tag as i32,
        SectorIntField::Special => sec.special as i32,
    }
}

/// `v` clamped into the range of `i16`.
pub open spec fn clamp_i16(v: int) -> int {
    if v < -32768 {
        -32768
    } else if v > 32767 {
        32767
    } else {
        v
    }
}

/// The changes that nudging `field` by `delta` makes on the sectors in
/// `ids`: one per existing sector whose clamped value moves, in id order.
pub open spec fn nudges(map: &MapData, ids: Seq<SectorId>, field: SectorIntField, delta: i32) -> Seq<SectorFieldChange>
    decreases ids.len(),
{
    if ids.len() == 0 {
        Seq::empty()
    } else {
        let prev = nudges(map, ids.drop_last(), field, delta);
        let id = ids.last();
        match map.sector_at(id) {
            Some(sec) => {
                let old = field_value(sec, field);
                let new = clamp_i16(old + delta);
                if new != old {
                    prev.push(SectorFieldChange { id, field, old, new: new as i32 })
                } else {
                    prev
                }
            },
            None => prev,
        }
    }
}

/// The field changes that nudging each of `sectors` by `delta` makes.
pub fn sector_field_changes(map: &MapData, sectors: &Vec<SectorId>, field: SectorIntField, delta: i32) -> (r: Vec<SectorFieldChange>)
    ensures
        r@ == nudges(map, sectors@, field, delta),
{
    let mut out: Vec<SectorFieldChange> = Vec::new();
    let mut i: usize = 0;
    while i < sectors.len()
        invariant
            0 <= i <= sectors@.len(),
            out@ == nudges(map, sectors@.subrange(0, i as int), field, delta),
        decreases sectors@.len() - i,
    {
        let sid = sectors[i];
        assert(sectors@.subrange(0, i + 1).drop_last() =~= sectors@.subrange(0, i as int));
        if let Some(sec) = map.sector(sid) {
            let old: i32 = match field {
                SectorIntField::FloorHeight => sec.floor_height as i32,
                SectorIntField::CeilingHeight => sec.ceiling_height as i32,
                SectorIntField::Light => sec.light as i32,
                SectorIntField::Tag => sec.tag as i32,
                SectorIntField::Special => sec.special as i32,
            };
            let sum: i64 = old as i64 + delta as i64;
            let new: i32 = if sum < -32768 {
                -32768
            } else if sum > 32767 {
                32767
            } else {
                sum as i32
            };
            if new != old {
                out.push(SectorFieldChange { id: sid, field, old, new });
            }
        }
        i = i + 1;
    }
    assert(sectors@.subrange(0, sectors@.len() as int) =~= sectors@);
    out
}

/// Every change a nudge makes stays inside the `i16` range; from a value
/// inside that range it moves by at most `delta`, in the direction of
/// `delta`.
pub proof fn lemma_nudges_bounded(map: &MapData, ids: Seq<SectorId>, field: SectorIntField, delta: i32)
    ensures
        forall|k: int|
            0 <= k < nudges(map, ids, field, delta).len() ==> {
                let c = #[trigger] nudges(map, ids, field, delta)[k];
                &&& -32768 <= c.new <= 32767
                &&& c.new != c.old
                &&& (-32768 <= c.old <= 32767 && delta >= 0 ==> c.old < c.new <= c.old + delta)
                &&& (-32768 <= c.old <= 32767 && delta < 0 ==> c.old + delta <= c.new < c.old)
            },
    decreases ids.len(),
{
    if ids.len() > 0 {
        lemma_nudges_bounded(map, ids.drop_last(), field, delta);
    }
}

/// What the scroll wheel does over a sector selection in sector mode: the
/// field it adjusts and by how much. Shift takes single steps, the plain
/// wheel steps of eight; Ctrl (or Cmd) picks brightness, Alt the ceiling,
/// otherwise the floor.
pub fn wheel_adjustment(wheel_up: bool, ctrl: bool, alt: bool, cmd: bool, shift: bool) -> (r: (SectorIntField, i32))
    ensures
        r.1 == (if shift { 1i32 } else { 8i32 }) * (if wheel_up { 1i32 } else { -1i32 }),
        r.0 == if ctrl || cmd {
            SectorIntField::Light
        } else if alt {
            SectorIntField::CeilingHeight
        } else {
            SectorIntField::FloorHeight
        },
{
    let big: i32 = if shift { 1 } else { 8 };
    let sign: i32 = if wheel_up { 1 } else { -1 };
    let delta = big * sign;
    if ctrl || cmd {
        (SectorIntField::Light, delta)
    } else if alt {
        (SectorIntField::CeilingHeight, delta)
    } else {
        (SectorIntField::FloorHeight, delta)
    }
}

/// What Escape cancels, in priority order.
#[derive(Clone, Copy, Debug, PartialEq, Eq, Structural)]
pub enum EscapeAction {
    CancelDrawing,
    CancelDrag,
    ClearSelection,
    Nothing,
}

/// Escape cancels drawing first, then an active drag, then clears a
/// non-empty selection.
pub fn escape_action(drawing: bool, dragging: bool, selection_empty: bool) -> (a: EscapeAction)
    ensures
        a == if drawing {
            EscapeAction::CancelDrawing
        } else if dragging {
            EscapeAction::CancelDrag
        } else if !selection_empty {
            EscapeAction::ClearSelection
        } else {
            EscapeAction::Nothing
        },
{
    if drawing {
        EscapeAction::CancelDrawing
    } else if dragging {
        EscapeAction::CancelDrag
    } else if !selection_empty {
        EscapeAction::ClearSelection
    } else {
        EscapeAction::Nothing
    }
}


/// A fly-camera key (Shift with W, A, S or D).
#[derive(Clone, Copy, Debug, PartialEq, Eq, Structural)]
pub enum FlyDirection {
    Forward,
    Back,
    StrafeLeft,
    StrafeRight,
}

/// What a fly-camera key does.
#[derive(Clone, Copy, Debug, PartialEq, Eq, Structural)]
pub enum FlyAction {
    /// In 3D, move the camera by `forward` steps along its heading and
    /// `right` steps to its right (each -1, 0 or 1).
    Move { forward: i8, right: i8 },
    /// In 2D, Shift+A keeps its meaning: auto-align textures on Y.
    AutoAlignY,
    /// In 2D, Shift+D keeps its meaning: make a door.
    MakeDoor,
    Nothing,
}

/// What a fly-camera key does in the given view: in 3D it moves the camera;
/// in 2D Shift+A and Shift+D keep their 2D meanings.
pub open spec fn fly_binding(mode: Mode, dir: FlyDirection) -> FlyAction {
    match mode {
        Mode::View3D => match dir {
            FlyDirection::Forward => FlyAction::Move { forward: 1, right: 0 },
            FlyDirection::Back => FlyAction::Move { forward: -1i8, right: 0 },
            FlyDirection::StrafeLeft => FlyAction::Move { forward: 0, right: -1i8 },
            FlyDirection::StrafeRight => FlyAction::Move { forward: 0, right: 1 },
        },
        Mode::View2D => match dir {
            FlyDirection::StrafeLeft => FlyAction::AutoAlignY,
            FlyDirection::StrafeRight => FlyAction::MakeDoor,
            _ => FlyAction::Nothing,
        },
    }
}

pub fn fly_action(mode: Mode, dir: FlyDirection) -> (a: FlyAction)
    ensures
        a == fly_binding(mode, dir),
{
    match mode {
        Mode::View3D => match dir {
            FlyDirection::Forward => FlyAction::Move { forward: 1, right: 0 },
            FlyDirection::Back => FlyAction::Move { forward: -1i8, right: 0 },
            FlyDirection::StrafeLeft => FlyAction::Move { forward: 0, right: -1i8 },
            FlyDirection::StrafeRight => FlyAction::Move { forward: 0, right: 1 },
        },
        Mode::View2D => match dir {
            FlyDirection::StrafeLeft => FlyAction::AutoAlignY,
            FlyDirection::StrafeRight => FlyAction::MakeDoor,
            _ => FlyAction::Nothing,
        },
    }
}

} // verus!
