//! Map analysis: floating, zero-length and overlapping lines, dangling
//! vertices, empty sectors and, when resources are loaded, missing textures
//! and flats. Issues come out ordered by severity, then by category.

use vstd::prelude::*;

use crate::map::{slot, LinedefId, MapData, MapLinedef, SectorId, SidedefId, TextureName, VertexId};

verus! {

#[derive(Clone, Copy, Debug, PartialEq, Eq, Structural)]
pub enum IssueSeverity {
    Error,
    Warning,
}

impl IssueSeverity {
    pub fn label(self) -> (s: &'static str)
        ensures
            s@ == match self {
                IssueSeverity::Error => "ERROR"@,
                IssueSeverity::Warning => "WARN"@,
            },
    {
        match self {
            IssueSeverity::Error => "ERROR",
            IssueSeverity::Warning => "WARN",
        }
    }
}

/// What kind of problem an issue reports.
#[derive(Clone, Copy, Debug, PartialEq, Eq, Structural)]
pub enum IssueCategory {
    DanglingVertex,
    EmptySector,
    FloatingLine,
    MissingFlat,
    MissingTexture,
    OverlappingLines,
    ZeroLengthLine,
}

impl IssueCategory {
    pub fn label(self) -> (s: &'static str)
        ensures
            s@ == match self {
                IssueCategory::DanglingVertex => "Dangling vertex"@,
                IssueCategory::EmptySector => "Empty sector"@,
                IssueCategory::FloatingLine => "Floating line"@,
                IssueCategory::MissingFlat => "Missing flat"@,
                IssueCategory::MissingTexture => "Missing texture"@,
                IssueCategory::OverlappingLines => "Overlapping lines"@,
                IssueCategory::ZeroLengthLine => "Zero-length line"@,
            },
    {
        match self {
            IssueCategory::DanglingVertex => "Dangling vertex",
            IssueCategory::EmptySector => "Empty sector",
            IssueCategory::FloatingLine => "Floating line",
            IssueCategory::MissingFlat => "Missing flat",
            IssueCategory::MissingTexture => "Missing texture",
            IssueCategory::OverlappingLines => "Overlapping lines",
            IssueCategory::ZeroLengthLine => "Zero-length line",
        }
    }
}

/// Position of a category when categories are ordered by label.
pub open spec fn category_rank(c: IssueCategory) -> int {
    match c {
        IssueCategory::DanglingVertex => 0,
        IssueCategory::EmptySector => 1,
        IssueCategory::FloatingLine => 2,
        IssueCategory::MissingFlat => 3,
        IssueCategory::MissingTexture => 4,
        IssueCategory::OverlappingLines => 5,
        IssueCategory::ZeroLengthLine => 6,
    }
}

pub open spec fn severity_rank(s: IssueSeverity) -> int {
    match s {
        IssueSeverity::Error => 0,
        IssueSeverity::Warning => 1,
    }
}

/// Which wall texture of a sidedef.
#[derive(Clone, Copy, Debug, PartialEq, Eq, Structural)]
pub enum WallSlot {
    Upper,
    Lower,
    Middle,
}

/// Which flat of a sector.
#[derive(Clone, Copy, Debug, PartialEq, Eq, Structural)]
pub enum FlatSlot {
    Floor,
    Ceiling,
}

/// The element an issue is about, with the values its message shows.
#[derive(Clone, Copy, Debug)]
pub enum IssueSubject {
    Line(LinedefId),
    ZeroLength { line: LinedefId, x: i32, y: i32 },
    Overlap { line: LinedefId, other: LinedefId },
    Vertex { vertex: VertexId, x: i32, y: i32 },
    Sector(SectorId),
    WallTexture { side: SidedefId, slot: WallSlot, name: TextureName },
    Flat { sector: SectorId, slot: FlatSlot, name: TextureName },
}

#[derive(Clone, Copy, Debug)]
pub struct MapIssue {
    pub severity: IssueSeverity,
    pub category: IssueCategory,
    pub subject: IssueSubject,
}

/// Names of the textures and flats that the loaded resources provide, upper
/// case.
pub struct TextureCatalog {
    pub textures: Vec<Vec<u8>>,
    pub flats: Vec<Vec<u8>>,
}

// ---------------------------------------------------------------------------
// Texture names.

/// The bytes of a texture name before its first NUL.
pub open spec fn name_bytes(n: TextureName) -> Seq<u8> {
    let s = n.0@;
    if exists|i: int| 0 <= i < 8 && s[i] == 0 {
        s.subrange(0, choose|i: int| 0 <= i < 8 && s[i] == 0 && forall|j: int| 0 <= j < i ==> s[j] != 0)
    } else {
        s
    }
}

pub open spec fn upper_byte(b: u8) -> u8 {
    if 97 <= b <= 122 {
        (b - 32) as u8
    } else {
        b
    }
}

pub open spec fn upper(s: Seq<u8>) -> Seq<u8> {
    s.map_values(|b: u8| upper_byte(b))
}

/// A name that stands for no texture: empty or "-".
pub open spec fn is_blank(n: TextureName) -> bool {
    name_bytes(n).len() == 0 || name_bytes(n) == seq![45u8]
}

pub open spec fn catalog_has(cat: &TextureCatalog, name: Seq<u8>) -> bool {
    (exists|i: int| 0 <= i < cat.textures@.len() && cat.textures@[i]@ == name)
        || (exists|i: int| 0 <= i < cat.flats@.len() && cat.flats@[i]@ == name)
}

/// Whether a name resolves: blank, or its upper-case form is a known
/// texture or flat.
pub open spec fn resolves(cat: &TextureCatalog, n: TextureName) -> bool {
    is_blank(n) || catalog_has(cat, upper(name_bytes(n)))
}

/// Bytes of a texture name up to its first NUL.
pub fn texture_name_bytes(n: &TextureName) -> (r: Vec<u8>)
    ensures
        r@ == name_bytes(*n),
{
    let mut out: Vec<u8> = Vec::new();
    let mut i: usize = 0;
    while i < 8
        invariant
            0 <= i <= 8,
            n.0@.len() == 8,
            out@ == n.0@.subrange(0, i as int),
            forall|j: int| 0 <= j < i ==> n.0@[j] != 0,
        decreases 8 - i,
    {
        if n.0[i] == 0 {
            proof {
                let s = n.0@;
                let c = choose|k: int| 0 <= k < 8 && s[k] == 0 && forall|j: int| 0 <= j < k ==> s[j] != 0;
                assert(0 <= i < 8 && s[i as int] == 0 && forall|j: int| 0 <= j < i ==> s[j] != 0);
                if c < i {
                } else if c > i {
                }
                assert(c == i);
            }
            return out;
        }
        out.push(n.0[i]);
        assert(out@ =~= n.0@.subrange(0, i + 1));
        i = i + 1;
    }
    assert(out@ =~= n.0@);
    out
}

/// The 8-byte name slot filled from `bytes`: the first eight bytes, the rest
/// NUL.
pub open spec fn padded_name(bytes: Seq<u8>) -> Seq<u8> {
    Seq::new(8, |i: int| if i < bytes.len() { bytes[i] } else { 0u8 })
}

fn byte_or_nul(s: &Vec<u8>, i: usize) -> (b: u8)
    ensures
        b == (if i < s@.len() { s@[i as int] } else { 0u8 }),
{
    if i < s.len() { s[i] } else { 0 }
}

/// The texture name a picked name is stored as: its first eight bytes,
/// padded with NULs.
pub fn texture_name_from(bytes: &Vec<u8>) -> (n: TextureName)
    ensures
        n.0@ == padded_name(bytes@),
{
    let n = TextureName([
        byte_or_nul(bytes, 0),
        byte_or_nul(bytes, 1),
        byte_or_nul(bytes, 2),
        byte_or_nul(bytes, 3),
        byte_or_nul(bytes, 4),
        byte_or_nul(bytes, 5),
        byte_or_nul(bytes, 6),
        byte_or_nul(bytes, 7),
    ]);
    assert(n.0@ =~= padded_name(bytes@));
    n
}

/// Storing a name of at most eight bytes, none of them NUL, and reading it
/// back gives the same bytes.
pub proof fn lemma_name_round_trip(bytes: Seq<u8>, n: TextureName)
    requires
        bytes.len() <= 8,
        forall|i: int| 0 <= i < bytes.len() ==> bytes[i] != 0,
        n.0@ == padded_name(bytes),
    ensures
        name_bytes(n) == bytes,
{
    let s = n.0@;
    if bytes.len() < 8 {
        let k = bytes.len() as int;
        assert(s[k] == 0);
        let c = choose|i: int| 0 <= i < 8 && s[i] == 0 && forall|j: int| 0 <= j < i ==> s[j] != 0;
        assert(0 <= k < 8 && s[k] == 0 && forall|j: int| 0 <= j < k ==> s[j] != 0);
        if c < k {
            assert(s[c] == bytes[c]);
        } else if c > k {
            assert(s[k] != 0);
        }
        assert(s.subrange(0, k) =~= bytes);
    } else {
        assert(forall|i: int| 0 <= i < 8 ==> s[i] != 0 && s[i] == bytes[i]);
        assert(s =~= bytes);
    }
}

/// Whether the name stands for no texture.
pub fn texture_name_is_blank(n: &TextureName) -> (b: bool)
    ensures
        b == is_blank(*n),
{
    let bytes = texture_name_bytes(n);
    if bytes.len() == 0 {
        return true;
    }
    let r = bytes.len() == 1 && bytes[0] == 45u8;
    proof {
        if bytes@.len() == 1 && bytes@[0] == 45u8 {
            assert(bytes@ =~= seq![45u8]);
        }
    }
    r
}

/// ASCII upper-case of a byte string.
pub fn to_upper(s: &Vec<u8>) -> (r: Vec<u8>)
    ensures
        r@ == upper(s@),
{
    let mut out: Vec<u8> = Vec::new();
    let mut i: usize = 0;
    while i < s.len()
        invariant
            0 <= i <= s@.len(),
            out@ =~= upper(s@.subrange(0, i as int)),
        decreases s@.len() - i,
    {
        let b = s[i];
        let u = if 97 <= b && b <= 122 { b - 32 } else { b };
        out.push(u);
        assert(upper(s@.subrange(0, i + 1)) =~= upper(s@.subrange(0, i as int)).push(upper_byte(b)));
        i = i + 1;
    }
    assert(s@.subrange(0, s@.len() as int) =~= s@);
    out
}

pub(crate) fn bytes_eq(a: &Vec<u8>, b: &Vec<u8>) -> (r: bool)
    ensures
        r == (a@ == b@),
{
    if a.len() != b.len() {
        return false;
    }
    let mut i: usize = 0;
    while i < a.len()
        invariant
            a@.len() == b@.len(),
            0 <= i <= a@.len(),
            forall|j: int| 0 <= j < i ==> a@[j] == b@[j],
        decreases a@.len() - i,
    {
        if a[i] != b[i] {
            return false;
        }
        i = i + 1;
    }
    assert(a@ =~= b@);
    true
}

fn list_has(list: &Vec<Vec<u8>>, name: &Vec<u8>) -> (r: bool)
    ensures
        r == exists|i: int| 0 <= i < list@.len() && list@[i]@ == name@,
{
    let mut i: usize = 0;
    while i < list.len()
        invariant
            0 <= i <= list@.len(),
            forall|j: int| 0 <= j < i ==> list@[j]@ != name@,
        decreases list@.len() - i,
    {
        if bytes_eq(&list[i], name) {
            return true;
        }
        i = i + 1;
    }
    false
}

/// Whether a texture name resolves against the loaded resources.
pub fn resolve(cat: &TextureCatalog, n: &TextureName) -> (b: bool)
    ensures
        b == resolves(cat, *n),
{
    if texture_name_is_blank(n) {
        return true;
    }
    let up = to_upper(&texture_name_bytes(n));
    list_has(&cat.textures, &up) || list_has(&cat.flats, &up)
}

// ---------------------------------------------------------------------------
// What each check reports.

pub open spec fn issue(sev: IssueSeverity, cat: IssueCategory, subject: IssueSubject) -> MapIssue {
    MapIssue { severity: sev, category: cat, subject }
}

/// Floating lines: lines with no sidedef on either side.
pub open spec fn floating_upto(map: &MapData, k: int) -> Seq<MapIssue>
    decreases k,
{
    if k <= 0 {
        Seq::empty()
    } else {
        floating_upto(map, k - 1) + match slot(map.linedefs@, k - 1) {
            Some(l) => if l.right is None && l.left is None {
                seq![issue(IssueSeverity::Warning, IssueCategory::FloatingLine, IssueSubject::Line(LinedefId((k - 1) as usize)))]
            } else {
                Seq::empty()
            },
            None => Seq::empty(),
        }
    }
}

/// Zero-length lines: both vertices exist and sit at the same point.
pub open spec fn zero_length_upto(map: &MapData, k: int) -> Seq<MapIssue>
    decreases k,
{
    if k <= 0 {
        Seq::empty()
    } else {
        zero_length_upto(map, k - 1) + match slot(map.linedefs@, k - 1) {
            Some(l) => match (map.vertex_at(l.v1), map.vertex_at(l.v2)) {
                (Some(a), Some(b)) => if a.x == b.x && a.y == b.y {
                    seq![issue(IssueSeverity::Error, IssueCategory::ZeroLengthLine,
                        IssueSubject::ZeroLength { line: LinedefId((k - 1) as usize), x: a.x, y: a.y })]
                } else {
                    Seq::empty()
                },
                _ => Seq::empty(),
            },
            None => Seq::empty(),
        }
    }
}

/// Two lines join the same two vertices, in either direction.
pub open spec fn same_ends(l: MapLinedef, m: MapLinedef) -> bool {
    (l.v1 == m.v1 && l.v2 == m.v2) || (l.v1 == m.v2 && l.v2 == m.v1)
}

/// The line in slot `j` repeats the ends of `l`.
pub open spec fn dup_at(map: &MapData, l: MapLinedef, j: int) -> bool {
    match slot(map.linedefs@, j) {
        Some(m) => same_ends(l, m),
        None => false,
    }
}

/// The first slot in `j..i` whose line repeats the ends of `l`.
pub open spec fn first_dup(map: &MapData, l: MapLinedef, j: int, i: int) -> Option<int>
    decreases i - j,
{
    if j >= i {
        None
    } else if dup_at(map, l, j) {
        Some(j)
    } else {
        first_dup(map, l, j + 1, i)
    }
}

/// The first line before slot `i` that joins the same vertices as `l`.
pub open spec fn first_same(map: &MapData, l: MapLinedef, i: int) -> Option<int> {
    first_dup(map, l, 0, i)
}

/// Overlapping lines: each line that repeats the ends of an earlier line,
/// reported against the first such line.
pub open spec fn overlap_upto(map: &MapData, k: int) -> Seq<MapIssue>
    decreases k,
{
    if k <= 0 {
        Seq::empty()
    } else {
        overlap_upto(map, k - 1) + match slot(map.linedefs@, k - 1) {
            Some(l) => match first_same(map, l, k - 1) {
                Some(j) => seq![issue(IssueSeverity::Error, IssueCategory::OverlappingLines,
                    IssueSubject::Overlap { line: LinedefId((k - 1) as usize), other: LinedefId(j as usize) })],
                None => Seq::empty(),
            },
            None => Seq::empty(),
        }
    }
}

/// Some line uses vertex slot `v` as an end.
pub open spec fn vertex_used(map: &MapData, v: int) -> bool {
    exists|j: int| #[trigger] uses(map, j, v)
}

/// The line in slot `j` has vertex slot `v` as an end.
pub open spec fn uses(map: &MapData, j: int, v: int) -> bool {
    match slot(map.linedefs@, j) {
        Some(l) => l.v1.0 == v || l.v2.0 == v,
        None => false,
    }
}

/// Dangling vertices: vertices no line uses.
pub open spec fn dangling_upto(map: &MapData, k: int) -> Seq<MapIssue>
    decreases k,
{
    if k <= 0 {
        Seq::empty()
    } else {
        dangling_upto(map, k - 1) + match slot(map.vertices@, k - 1) {
            Some(v) => if !vertex_used(map, k - 1) {
                seq![issue(IssueSeverity::Warning, IssueCategory::DanglingVertex,
                    IssueSubject::Vertex { vertex: VertexId((k - 1) as usize), x: v.x, y: v.y })]
            } else {
                Seq::empty()
            },
            None => Seq::empty(),
        }
    }
}

/// Empty sectors: sectors whose sidedef index is empty.
pub open spec fn empty_sector_upto(map: &MapData, k: int) -> Seq<MapIssue>
    decreases k,
{
    if k <= 0 {
        Seq::empty()
    } else {
        empty_sector_upto(map, k - 1) + match slot(map.sectors@, k - 1) {
            Some(s) => if s.sidedefs@.len() == 0 {
                seq![issue(IssueSeverity::Warning, IssueCategory::EmptySector, IssueSubject::Sector(SectorId((k - 1) as usize)))]
            } else {
                Seq::empty()
            },
            None => Seq::empty(),
        }
    }
}

pub open spec fn wall_check(cat: &TextureCatalog, side: SidedefId, slot: WallSlot, n: TextureName) -> Seq<MapIssue> {
    if resolves(cat, n) {
        Seq::empty()
    } else {
        seq![issue(IssueSeverity::Warning, IssueCategory::MissingTexture, IssueSubject::WallTexture { side, slot, name: n })]
    }
}

/// Missing wall textures: upper, lower and middle of each sidedef.
pub open spec fn missing_texture_upto(map: &MapData, cat: &TextureCatalog, k: int) -> Seq<MapIssue>
    decreases k,
{
    if k <= 0 {
        Seq::empty()
    } else {
        missing_texture_upto(map, cat, k - 1) + match slot(map.sidedefs@, k - 1) {
            Some(s) => {
                let id = SidedefId((k - 1) as usize);
                wall_check(cat, id, WallSlot::Upper, s.upper_texture) + wall_check(cat, id, WallSlot::Lower, s.lower_texture)
                    + wall_check(cat, id, WallSlot::Middle, s.middle_texture)
            },
            None => Seq::empty(),
        }
    }
}

pub open spec fn flat_check(cat: &TextureCatalog, sector: SectorId, slot: FlatSlot, n: TextureName) -> Seq<MapIssue> {
    if resolves(cat, n) {
        Seq::empty()
    } else {
        seq![issue(IssueSeverity::Warning, IssueCategory::MissingFlat, IssueSubject::Flat { sector, slot, name: n })]
    }
}

/// Missing flats: floor and ceiling of each sector.
pub open spec fn missing_flat_upto(map: &MapData, cat: &TextureCatalog, k: int) -> Seq<MapIssue>
    decreases k,
{
    if k <= 0 {
        Seq::empty()
    } else {
        missing_flat_upto(map, cat, k - 1) + match slot(map.sectors@, k - 1) {
            Some(s) => {
                let id = SectorId((k - 1) as usize);
                flat_check(cat, id, FlatSlot::Floor, s.floor_texture) + flat_check(cat, id, FlatSlot::Ceiling, s.ceiling_texture)
            },
            None => Seq::empty(),
        }
    }
}

/// All issues, ordered by severity then category label, each category in
/// slot order. Texture checks run only when resources are loaded.
pub open spec fn analysis_spec(map: &MapData, cat: Option<&TextureCatalog>) -> Seq<MapIssue> {
    let base = overlap_upto(map, map.linedefs@.len() as int) + zero_length_upto(map, map.linedefs@.len() as int)
        + dangling_upto(map, map.vertices@.len() as int) + empty_sector_upto(map, map.sectors@.len() as int)
        + floating_upto(map, map.linedefs@.len() as int);
    match cat {
        Some(c) => base + missing_flat_upto(map, c, map.sectors@.len() as int) + missing_texture_upto(
            map,
            c,
            map.sidedefs@.len() as int,
        ),
        None => base,
    }
}


// ---------------------------------------------------------------------------
// The checks.

fn floating_lines(map: &MapData) -> (r: Vec<MapIssue>)
    ensures
        r@ == floating_upto(map, map.linedefs@.len() as int),
{
    let mut out: Vec<MapIssue> = Vec::new();
    let mut k: usize = 0;
    while k < map.linedefs.len()
        invariant
            0 <= k <= map.linedefs@.len(),
            out@ == floating_upto(map, k as int),
        decreases map.linedefs@.len() - k,
    {
        if let Some(l) = map.linedefs[k] {
            if l.right.is_none() && l.left.is_none() {
                out.push(MapIssue {
                    severity: IssueSeverity::Warning,
                    category: IssueCategory::FloatingLine,
                    subject: IssueSubject::Line(LinedefId(k)),
                });
            }
        }
        assert(out@ =~= floating_upto(map, k + 1));
        k = k + 1;
    }
    out
}

fn zero_length_lines(map: &MapData) -> (r: Vec<MapIssue>)
    ensures
        r@ == zero_length_upto(map, map.linedefs@.len() as int),
{
    let mut out: Vec<MapIssue> = Vec::new();
    let mut k: usize = 0;
    while k < map.linedefs.len()
        invariant
            0 <= k <= map.linedefs@.len(),
            out@ == zero_length_upto(map, k as int),
        decreases map.linedefs@.len() - k,
    {
        if let Some(l) = map.linedefs[k] {
            if let (Some(a), Some(b)) = (map.vertex(l.v1), map.vertex(l.v2)) {
                if a.x == b.x && a.y == b.y {
                    out.push(MapIssue {
                        severity: IssueSeverity::Error,
                        category: IssueCategory::ZeroLengthLine,
                        subject: IssueSubject::ZeroLength { line: LinedefId(k), x: a.x, y: a.y },
                    });
                }
            }
        }
        assert(out@ =~= zero_length_upto(map, k + 1));
        k = k + 1;
    }
    out
}

fn find_first_dup(map: &MapData, l: MapLinedef, i: usize) -> (r: Option<usize>)
    requires
        i <= map.linedefs@.len(),
    ensures
        match r {
            Some(j) => first_same(map, l, i as int) == Some(j as int),
            None => first_same(map, l, i as int) is None,
        },
{
    let mut j: usize = 0;
    while j < i
        invariant
            0 <= j <= i,
            i <= map.linedefs@.len(),
            first_same(map, l, i as int) == first_dup(map, l, j as int, i as int),
        decreases i - j,
    {
        if let Some(m) = map.linedefs[j] {
            if (l.v1 == m.v1 && l.v2 == m.v2) || (l.v1 == m.v2 && l.v2 == m.v1) {
                return Some(j);
            }
        }
        j = j + 1;
    }
    None
}

fn overlapping_lines(map: &MapData) -> (r: Vec<MapIssue>)
    ensures
        r@ == overlap_upto(map, map.linedefs@.len() as int),
{
    let mut out: Vec<MapIssue> = Vec::new();
    let mut k: usize = 0;
    while k < map.linedefs.len()
        invariant
            0 <= k <= map.linedefs@.len(),
            out@ == overlap_upto(map, k as int),
        decreases map.linedefs@.len() - k,
    {
        if let Some(l) = map.linedefs[k] {
            if let Some(j) = find_first_dup(map, l, k) {
                out.push(MapIssue {
                    severity: IssueSeverity::Error,
                    category: IssueCategory::OverlappingLines,
                    subject: IssueSubject::Overlap { line: LinedefId(k), other: LinedefId(j) },
                });
            }
        }
        assert(out@ =~= overlap_upto(map, k + 1));
        k = k + 1;
    }
    out
}

/// Which vertex slots some line uses as an end.
fn used_vertices(map: &MapData) -> (r: Vec<bool>)
    ensures
        r@.len() == map.vertices@.len(),
        forall|v: int| 0 <= v < r@.len() ==> r@[v] == vertex_used(map, v),
{
    let n = map.vertices.len();
    let mut used: Vec<bool> = vec![false; n];
    let mut j: usize = 0;
    while j < map.linedefs.len()
        invariant
            n == map.vertices@.len(),
            used@.len() == n,
            0 <= j <= map.linedefs@.len(),
            forall|v: int| 0 <= v < n ==> used@[v] == exists|jj: int| 0 <= jj < j && #[trigger] uses(map, jj, v),
        decreases map.linedefs@.len() - j,
    {
        if let Some(l) = map.linedefs[j] {
            if l.v1.0 < n {
                used[l.v1.0] = true;
            }
            if l.v2.0 < n {
                used[l.v2.0] = true;
            }
        }
        assert forall|v: int| 0 <= v < n implies used@[v] == exists|jj: int| 0 <= jj < j + 1 && #[trigger] uses(map, jj, v) by {
            if uses(map, j as int, v) {
                assert(0 <= j < j + 1);
            }
            if exists|jj: int| 0 <= jj < j + 1 && #[trigger] uses(map, jj, v) {
                let jj = choose|jj: int| 0 <= jj < j + 1 && #[trigger] uses(map, jj, v);
                if jj < j {
                    assert(exists|jx: int| 0 <= jx < j && #[trigger] uses(map, jx, v));
                }
            }
        }
        j = j + 1;
    }
    assert forall|v: int| 0 <= v < n implies used@[v] == vertex_used(map, v) by {
        if vertex_used(map, v) {
            let jj = choose|jj: int| #[trigger] uses(map, jj, v);
            assert(0 <= jj < map.linedefs@.len());
        }
    }
    used
}

fn dangling_vertices(map: &MapData) -> (r: Vec<MapIssue>)
    ensures
        r@ == dangling_upto(map, map.vertices@.len() as int),
{
    let used = used_vertices(map);
    let mut out: Vec<MapIssue> = Vec::new();
    let mut k: usize = 0;
    while k < map.vertices.len()
        invariant
            0 <= k <= map.vertices@.len(),
            used@.len() == map.vertices@.len(),
            forall|v: int| 0 <= v < used@.len() ==> used@[v] == vertex_used(map, v),
            out@ == dangling_upto(map, k as int),
        decreases map.vertices@.len() - k,
    {
        if let Some(v) = map.vertices[k] {
            if !used[k] {
                out.push(MapIssue {
                    severity: IssueSeverity::Warning,
                    category: IssueCategory::DanglingVertex,
                    subject: IssueSubject::Vertex { vertex: VertexId(k), x: v.x, y: v.y },
                });
            }
        }
        assert(out@ =~= dangling_upto(map, k + 1));
        k = k + 1;
    }
    out
}

fn empty_sectors(map: &MapData) -> (r: Vec<MapIssue>)
    ensures
        r@ == empty_sector_upto(map, map.sectors@.len() as int),
{
    let mut out: Vec<MapIssue> = Vec::new();
    let mut k: usize = 0;
    while k < map.sectors.len()
        invariant
            0 <= k <= map.sectors@.len(),
            out@ == empty_sector_upto(map, k as int),
        decreases map.sectors@.len() - k,
    {
        if let Some(s) = &map.sectors[k] {
            if s.sidedefs.len() == 0 {
                out.push(MapIssue {
                    severity: IssueSeverity::Warning,
                    category: IssueCategory::EmptySector,
                    subject: IssueSubject::Sector(SectorId(k)),
                });
            }
        }
        assert(out@ =~= empty_sector_upto(map, k + 1));
        k = k + 1;
    }
    out
}

fn check_wall(cat: &TextureCatalog, side: SidedefId, slot: WallSlot, n: TextureName, out: &mut Vec<MapIssue>)
    ensures
        final(out)@ == old(out)@ + wall_check(cat, side, slot, n),
{
    if !resolve(cat, &n) {
        out.push(MapIssue {
            severity: IssueSeverity::Warning,
            category: IssueCategory::MissingTexture,
            subject: IssueSubject::WallTexture { side, slot, name: n },
        });
    }
    assert(out@ =~= old(out)@ + wall_check(cat, side, slot, n));
}

fn check_flat(cat: &TextureCatalog, sector: SectorId, slot: FlatSlot, n: TextureName, out: &mut Vec<MapIssue>)
    ensures
        final(out)@ == old(out)@ + flat_check(cat, sector, slot, n),
{
    if !resolve(cat, &n) {
        out.push(MapIssue {
            severity: IssueSeverity::Warning,
            category: IssueCategory::MissingFlat,
            subject: IssueSubject::Flat { sector, slot, name: n },
        });
    }
    assert(out@ =~= old(out)@ + flat_check(cat, sector, slot, n));
}

fn missing_textures(map: &MapData, cat: &TextureCatalog) -> (r: Vec<MapIssue>)
    ensures
        r@ == missing_texture_upto(map, cat, map.sidedefs@.len() as int),
{
    let mut out: Vec<MapIssue> = Vec::new();
    let mut k: usize = 0;
    while k < map.sidedefs.len()
        invariant
            0 <= k <= map.sidedefs@.len(),
            out@ == missing_texture_upto(map, cat, k as int),
        decreases map.sidedefs@.len() - k,
    {
        if let Some(s) = map.sidedefs[k] {
            check_wall(cat, SidedefId(k), WallSlot::Upper, s.upper_texture, &mut out);
            check_wall(cat, SidedefId(k), WallSlot::Lower, s.lower_texture, &mut out);
            check_wall(cat, SidedefId(k), WallSlot::Middle, s.middle_texture, &mut out);
        }
        assert(out@ =~= missing_texture_upto(map, cat, k + 1));
        k = k + 1;
    }
    out
}

fn missing_flats(map: &MapData, cat: &TextureCatalog) -> (r: Vec<MapIssue>)
    ensures
        r@ == missing_flat_upto(map, cat, map.sectors@.len() as int),
{
    let mut out: Vec<MapIssue> = Vec::new();
    let mut k: usize = 0;
    while k < map.sectors.len()
        invariant
            0 <= k <= map.sectors@.len(),
            out@ == missing_flat_upto(map, cat, k as int),
        decreases map.sectors@.len() - k,
    {
        if let Some(s) = &map.sectors[k] {
            check_flat(cat, SectorId(k), FlatSlot::Floor, s.floor_texture, &mut out);
            check_flat(cat, SectorId(k), FlatSlot::Ceiling, s.ceiling_texture, &mut out);
        }
        assert(out@ =~= missing_flat_upto(map, cat, k + 1));
        k = k + 1;
    }
    out
}

/// Run every check on the map; texture checks only when resources are
/// loaded. Issues come ordered by severity, then category label.
pub fn analyze_map(map: &MapData, textures: Option<&TextureCatalog>) -> (r: Vec<MapIssue>)
    ensures
        r@ == analysis_spec(map, textures),
        forall|i: int|
            0 <= i < map.linedefs@.len() ==> (#[trigger] reports_zero_length(r@, i) <==> (map.linedefs@[i] is Some
                && map.vertex_at(map.linedefs@[i]->0.v1) is Some && map.vertex_at(map.linedefs@[i]->0.v2) is Some
                && map.vertex_at(map.linedefs@[i]->0.v1)->0.x == map.vertex_at(map.linedefs@[i]->0.v2)->0.x
                && map.vertex_at(map.linedefs@[i]->0.v1)->0.y == map.vertex_at(map.linedefs@[i]->0.v2)->0.y)),
        forall|i: int|
            0 <= i < map.linedefs@.len() ==> (#[trigger] reports(r@, IssueCategory::FloatingLine, i) <==> (
            map.linedefs@[i] is Some && map.linedefs@[i]->0.right is None && map.linedefs@[i]->0.left is None)),
        forall|v: int|
            0 <= v < map.vertices@.len() ==> (#[trigger] reports(r@, IssueCategory::DanglingVertex, v) <==> (
            map.vertices@[v] is Some && forall|j: int|
                0 <= j < map.linedefs@.len() && #[trigger] map.linedefs@[j] is Some ==> map.linedefs@[j]->0.v1.0 != v
                    && map.linedefs@[j]->0.v2.0 != v)),
        forall|i: int|
            0 <= i < map.sectors@.len() ==> (#[trigger] reports(r@, IssueCategory::EmptySector, i) <==> (
            map.sectors@[i] is Some && map.sectors@[i]->0.sidedefs@.len() == 0)),
        forall|i: int|
            0 <= i < map.linedefs@.len() ==> (#[trigger] reports(r@, IssueCategory::OverlappingLines, i) <==> (
            map.linedefs@[i] is Some && exists|j: int|
                0 <= j < i && #[trigger] map.linedefs@[j] is Some && ((map.linedefs@[j]->0.v1 == map.linedefs@[i]->0.v1
                    && map.linedefs@[j]->0.v2 == map.linedefs@[i]->0.v2) || (map.linedefs@[j]->0.v1
                    == map.linedefs@[i]->0.v2 && map.linedefs@[j]->0.v2 == map.linedefs@[i]->0.v1)))),
        forall|i: int, slot: WallSlot|
            0 <= i < map.sidedefs@.len() ==> (#[trigger] reports_wall(r@, i, slot) <==> (textures is Some
                && map.sidedefs@[i] is Some && !resolves(
                textures->0,
                match slot {
                    WallSlot::Upper => map.sidedefs@[i]->0.upper_texture,
                    WallSlot::Lower => map.sidedefs@[i]->0.lower_texture,
                    WallSlot::Middle => map.sidedefs@[i]->0.middle_texture,
                },
            ))),
        forall|i: int, slot: FlatSlot|
            0 <= i < map.sectors@.len() ==> (#[trigger] reports_flat(r@, i, slot) <==> (textures is Some
                && map.sectors@[i] is Some && !resolves(
                textures->0,
                match slot {
                    FlatSlot::Floor => map.sectors@[i]->0.floor_texture,
                    FlatSlot::Ceiling => map.sectors@[i]->0.ceiling_texture,
                },
            ))),
{
    let line_slots = map.linedefs.len();
    let vertex_slots = map.vertices.len();
    let sector_slots = map.sectors.len();
    let sidedef_slots = map.sidedefs.len();
    let mut out = overlapping_lines(map);
    let mut z = zero_length_lines(map);
    out.append(&mut z);
    let mut d = dangling_vertices(map);
    out.append(&mut d);
    let mut e = empty_sectors(map);
    out.append(&mut e);
    let mut f = floating_lines(map);
    out.append(&mut f);
    if let Some(cat) = textures {
        let mut mf = missing_flats(map, cat);
        out.append(&mut mf);
        let mut mt = missing_textures(map, cat);
        out.append(&mut mt);
    }
    proof {
        assert(line_slots == map.linedefs@.len());
        assert(vertex_slots == map.vertices@.len());
        assert(sector_slots == map.sectors@.len());
        lemma_analysis_zero_length(map, textures);
        lemma_analysis_reports(map, textures);
        assert(sidedef_slots == map.sidedefs@.len());
        lemma_analysis_textures(map, textures);
        assert(out@ == analysis_spec(map, textures));
        assert forall|i: int| 0 <= i < map.linedefs@.len() implies (#[trigger] reports_zero_length(out@, i)
            <==> reports_zero_length(analysis_spec(map, textures), i)) by {}
    }
    out
}


// ---------------------------------------------------------------------------
// Ordering.

/// Every issue in `s` has severity `sev` and category `cat`.
pub open spec fn all_keyed(s: Seq<MapIssue>, sev: IssueSeverity, cat: IssueCategory) -> bool {
    forall|i: int| 0 <= i < s.len() ==> (#[trigger] s[i]).severity == sev && s[i].category == cat
}

/// `a` comes no later than `b` when ordering by severity, then category.
pub open spec fn key_le(a: MapIssue, b: MapIssue) -> bool {
    severity_rank(a.severity) < severity_rank(b.severity) || (severity_rank(a.severity) == severity_rank(b.severity)
        && category_rank(a.category) <= category_rank(b.category))
}

proof fn lemma_floating_key(map: &MapData, k: int)
    ensures
        all_keyed(floating_upto(map, k), IssueSeverity::Warning, IssueCategory::FloatingLine),
    decreases k,
{
    if k > 0 {
        lemma_floating_key(map, k - 1);
    }
}

proof fn lemma_zero_length_key(map: &MapData, k: int)
    ensures
        all_keyed(zero_length_upto(map, k), IssueSeverity::Error, IssueCategory::ZeroLengthLine),
    decreases k,
{
    if k > 0 {
        lemma_zero_length_key(map, k - 1);
    }
}

proof fn lemma_overlap_key(map: &MapData, k: int)
    ensures
        all_keyed(overlap_upto(map, k), IssueSeverity::Error, IssueCategory::OverlappingLines),
    decreases k,
{
    if k > 0 {
        lemma_overlap_key(map, k - 1);
    }
}

proof fn lemma_dangling_key(map: &MapData, k: int)
    ensures
        all_keyed(dangling_upto(map, k), IssueSeverity::Warning, IssueCategory::DanglingVertex),
    decreases k,
{
    if k > 0 {
        lemma_dangling_key(map, k - 1);
    }
}

proof fn lemma_empty_sector_key(map: &MapData, k: int)
    ensures
        all_keyed(empty_sector_upto(map, k), IssueSeverity::Warning, IssueCategory::EmptySector),
    decreases k,
{
    if k > 0 {
        lemma_empty_sector_key(map, k - 1);
    }
}

proof fn lemma_missing_texture_key(map: &MapData, cat: &TextureCatalog, k: int)
    ensures
        all_keyed(missing_texture_upto(map, cat, k), IssueSeverity::Warning, IssueCategory::MissingTexture),
    decreases k,
{
    if k > 0 {
        lemma_missing_texture_key(map, cat, k - 1);
    }
}

proof fn lemma_missing_flat_key(map: &MapData, cat: &TextureCatalog, k: int)
    ensures
        all_keyed(missing_flat_upto(map, cat, k), IssueSeverity::Warning, IssueCategory::MissingFlat),
    decreases k,
{
    if k > 0 {
        lemma_missing_flat_key(map, cat, k - 1);
    }
}

/// Some issue of the list reports line `i` as zero-length.
pub open spec fn reports_zero_length(issues: Seq<MapIssue>, i: int) -> bool {
    exists|j: int|
        0 <= j < issues.len() && (#[trigger] issues[j]).category == IssueCategory::ZeroLengthLine
            && issues[j].subject is ZeroLength && issues[j].subject->ZeroLength_line.0 == i
}

proof fn lemma_zero_length_exact(map: &MapData, k: int)
    requires
        0 <= k <= map.linedefs@.len(),
        k <= usize::MAX,
    ensures
        forall|j: int|
            0 <= j < zero_length_upto(map, k).len() ==> (#[trigger] zero_length_upto(map, k)[j]).subject is ZeroLength
                && zero_length_upto(map, k)[j].subject->ZeroLength_line.0 < k,
        forall|i: int|
            0 <= i < k ==> (#[trigger] reports_zero_length(zero_length_upto(map, k), i) <==> (map.linedefs@[i] is Some
                && map.vertex_at(map.linedefs@[i]->0.v1) is Some && map.vertex_at(map.linedefs@[i]->0.v2) is Some
                && map.vertex_at(map.linedefs@[i]->0.v1)->0.x == map.vertex_at(map.linedefs@[i]->0.v2)->0.x
                && map.vertex_at(map.linedefs@[i]->0.v1)->0.y == map.vertex_at(map.linedefs@[i]->0.v2)->0.y)),
    decreases k,
{
    lemma_zero_length_key(map, k);
    if k > 0 {
        lemma_zero_length_exact(map, k - 1);
        let prev = zero_length_upto(map, k - 1);
        let cur = zero_length_upto(map, k);
        assert forall|j: int| 0 <= j < prev.len() implies cur[j] == prev[j] by {}
        assert forall|i: int| 0 <= i < k implies (#[trigger] reports_zero_length(cur, i) <==> (map.linedefs@[i] is Some
                && map.vertex_at(map.linedefs@[i]->0.v1) is Some && map.vertex_at(map.linedefs@[i]->0.v2) is Some
                && map.vertex_at(map.linedefs@[i]->0.v1)->0.x == map.vertex_at(map.linedefs@[i]->0.v2)->0.x
                && map.vertex_at(map.linedefs@[i]->0.v1)->0.y == map.vertex_at(map.linedefs@[i]->0.v2)->0.y)) by {
            if i < k - 1 {
                if reports_zero_length(cur, i) {
                    let j = choose|j: int|
                        0 <= j < cur.len() && (#[trigger] cur[j]).category == IssueCategory::ZeroLengthLine
                            && cur[j].subject is ZeroLength && cur[j].subject->ZeroLength_line.0 == i;
                    if j >= prev.len() {
                        assert(cur[j].subject->ZeroLength_line.0 == k - 1);
                    } else {
                        assert(prev[j] == cur[j]);
                        assert(reports_zero_length(prev, i));
                    }
                }
                if reports_zero_length(prev, i) {
                    let j = choose|j: int|
                        0 <= j < prev.len() && (#[trigger] prev[j]).category == IssueCategory::ZeroLengthLine
                            && prev[j].subject is ZeroLength && prev[j].subject->ZeroLength_line.0 == i;
                    assert(cur[j] == prev[j]);
                }
            } else {
                if reports_zero_length(cur, i) {
                    let j = choose|j: int|
                        0 <= j < cur.len() && (#[trigger] cur[j]).category == IssueCategory::ZeroLengthLine
                            && cur[j].subject is ZeroLength && cur[j].subject->ZeroLength_line.0 == i;
                    if j < prev.len() {
                        assert(prev[j] == cur[j]);
                        assert(prev[j].subject->ZeroLength_line.0 < k - 1);
                    }
                }
                if cur.len() > prev.len() {
                    assert(cur[prev.len() as int].subject->ZeroLength_line.0 == k - 1);
                    assert(cur[prev.len() as int].category == IssueCategory::ZeroLengthLine);
                }
            }
        }
    }
}

/// The slot index of the element an issue is about.
pub open spec fn subject_index(s: IssueSubject) -> int {
    match s {
        IssueSubject::Line(l) => l.0 as int,
        IssueSubject::ZeroLength { line, .. } => line.0 as int,
        IssueSubject::Overlap { line, .. } => line.0 as int,
        IssueSubject::Vertex { vertex, .. } => vertex.0 as int,
        IssueSubject::Sector(s) => s.0 as int,
        IssueSubject::WallTexture { side, .. } => side.0 as int,
        IssueSubject::Flat { sector, .. } => sector.0 as int,
    }
}

/// Some issue of the list, of category `c`, is about slot `i`.
pub open spec fn reports(issues: Seq<MapIssue>, c: IssueCategory, i: int) -> bool {
    exists|j: int| 0 <= j < issues.len() && (#[trigger] issues[j]).category == c && subject_index(issues[j].subject) == i
}

proof fn lemma_reports_concat(a: Seq<MapIssue>, b: Seq<MapIssue>, c: IssueCategory, i: int)
    ensures
        reports(a + b, c, i) <==> reports(a, c, i) || reports(b, c, i),
{
    let ab = a + b;
    if reports(ab, c, i) {
        let j = choose|j: int| 0 <= j < ab.len() && (#[trigger] ab[j]).category == c && subject_index(ab[j].subject) == i;
        if j < a.len() {
            assert(ab[j] == a[j]);
        } else {
            assert(ab[j] == b[j - a.len()]);
        }
    }
    if reports(a, c, i) {
        let j = choose|j: int| 0 <= j < a.len() && (#[trigger] a[j]).category == c && subject_index(a[j].subject) == i;
        assert(ab[j] == a[j]);
    }
    if reports(b, c, i) {
        let j = choose|j: int| 0 <= j < b.len() && (#[trigger] b[j]).category == c && subject_index(b[j].subject) == i;
        assert(ab[a.len() + j] == b[j]);
    }
}

proof fn lemma_reports_keyed(a: Seq<MapIssue>, sev: IssueSeverity, k: IssueCategory, c: IssueCategory, i: int)
    requires
        all_keyed(a, sev, k),
        k != c,
    ensures
        !reports(a, c, i),
{
    if reports(a, c, i) {
        let j = choose|j: int| 0 <= j < a.len() && (#[trigger] a[j]).category == c && subject_index(a[j].subject) == i;
    }
}

proof fn lemma_reports_step(prev: Seq<MapIssue>, add: Seq<MapIssue>, c: IssueCategory, i: int, k: int)
    requires
        forall|j: int| 0 <= j < add.len() ==> subject_index((#[trigger] add[j]).subject) == k,
        i != k,
    ensures
        reports(prev + add, c, i) <==> reports(prev, c, i),
{
    lemma_reports_concat(prev, add, c, i);
    if reports(add, c, i) {
        let j = choose|j: int| 0 <= j < add.len() && (#[trigger] add[j]).category == c && subject_index(add[j].subject) == i;
    }
}

proof fn lemma_floating_exact(map: &MapData, k: int)
    requires
        0 <= k <= map.linedefs@.len(),
        k <= usize::MAX,
    ensures
        forall|j: int| 0 <= j < floating_upto(map, k).len() ==> subject_index((#[trigger] floating_upto(map, k)[j]).subject) < k,
        forall|i: int|
            0 <= i < k ==> (#[trigger] reports(floating_upto(map, k), IssueCategory::FloatingLine, i) <==> (
            map.linedefs@[i] is Some && map.linedefs@[i]->0.right is None && map.linedefs@[i]->0.left is None)),
    decreases k,
{
    if k > 0 {
        lemma_floating_exact(map, k - 1);
        let prev = floating_upto(map, k - 1);
        let add = match slot(map.linedefs@, k - 1) {
            Some(l) => if l.right is None && l.left is None {
                seq![issue(IssueSeverity::Warning, IssueCategory::FloatingLine, IssueSubject::Line(LinedefId((k - 1) as usize)))]
            } else {
                Seq::<MapIssue>::empty()
            },
            None => Seq::<MapIssue>::empty(),
        };
        assert(floating_upto(map, k) == prev + add);
        assert forall|i: int| 0 <= i < k implies (#[trigger] reports(floating_upto(map, k), IssueCategory::FloatingLine, i) <==> (
            map.linedefs@[i] is Some && map.linedefs@[i]->0.right is None && map.linedefs@[i]->0.left is None)) by {
            if i < k - 1 {
                lemma_reports_step(prev, add, IssueCategory::FloatingLine, i, k - 1);
            } else {
                lemma_reports_concat(prev, add, IssueCategory::FloatingLine, i);
                if reports(prev, IssueCategory::FloatingLine, i) {
                    let j = choose|j: int|
                        0 <= j < prev.len() && (#[trigger] prev[j]).category == IssueCategory::FloatingLine && subject_index(
                            prev[j].subject,
                        ) == i;
                }
                if add.len() > 0 {
                    assert(add[0].category == IssueCategory::FloatingLine && subject_index(add[0].subject) == i);
                }
            }
        }
        assert forall|j: int| 0 <= j < floating_upto(map, k).len() implies subject_index(
            (#[trigger] floating_upto(map, k)[j]).subject,
        ) < k by {
            if j < prev.len() {
                assert(floating_upto(map, k)[j] == prev[j]);
            } else {
                assert(floating_upto(map, k)[j] == add[j - prev.len()]);
            }
        }
    }
}

proof fn lemma_first_dup(map: &MapData, l: MapLinedef, j: int, i: int)
    requires
        0 <= j,
    ensures
        first_dup(map, l, j, i) is Some <==> exists|m: int| j <= m < i && #[trigger] dup_at(map, l, m),
    decreases i - j,
{
    if j < i {
        lemma_first_dup(map, l, j + 1, i);
        if first_dup(map, l, j, i) is None {
            assert forall|m: int| j <= m < i implies !#[trigger] dup_at(map, l, m) by {
                if m > j {
                    assert(!(exists|m2: int| j + 1 <= m2 < i && #[trigger] dup_at(map, l, m2)));
                }
            }
        }
    }
}

proof fn lemma_overlap_exact(map: &MapData, k: int)
    requires
        0 <= k <= map.linedefs@.len(),
        k <= usize::MAX,
    ensures
        forall|j: int| 0 <= j < overlap_upto(map, k).len() ==> subject_index((#[trigger] overlap_upto(map, k)[j]).subject) < k,
        forall|i: int|
            0 <= i < k ==> (#[trigger] reports(overlap_upto(map, k), IssueCategory::OverlappingLines, i) <==> (
            map.linedefs@[i] is Some && exists|j: int|
                0 <= j < i && #[trigger] map.linedefs@[j] is Some && ((map.linedefs@[j]->0.v1 == map.linedefs@[i]->0.v1
                    && map.linedefs@[j]->0.v2 == map.linedefs@[i]->0.v2) || (map.linedefs@[j]->0.v1
                    == map.linedefs@[i]->0.v2 && map.linedefs@[j]->0.v2 == map.linedefs@[i]->0.v1)))),
    decreases k,
{
    if k > 0 {
        lemma_overlap_exact(map, k - 1);
        let prev = overlap_upto(map, k - 1);
        let add = match slot(map.linedefs@, k - 1) {
            Some(l) => match first_same(map, l, k - 1) {
                Some(j) => seq![issue(IssueSeverity::Error, IssueCategory::OverlappingLines,
                    IssueSubject::Overlap { line: LinedefId((k - 1) as usize), other: LinedefId(j as usize) })],
                None => Seq::<MapIssue>::empty(),
            },
            None => Seq::<MapIssue>::empty(),
        };
        assert(overlap_upto(map, k) == prev + add);
        assert forall|i: int| 0 <= i < k implies (#[trigger] reports(overlap_upto(map, k), IssueCategory::OverlappingLines, i) <==> (
            map.linedefs@[i] is Some && exists|j: int|
                0 <= j < i && #[trigger] map.linedefs@[j] is Some && ((map.linedefs@[j]->0.v1 == map.linedefs@[i]->0.v1
                    && map.linedefs@[j]->0.v2 == map.linedefs@[i]->0.v2) || (map.linedefs@[j]->0.v1
                    == map.linedefs@[i]->0.v2 && map.linedefs@[j]->0.v2 == map.linedefs@[i]->0.v1)))) by {
            if i < k - 1 {
                lemma_reports_step(prev, add, IssueCategory::OverlappingLines, i, k - 1);
            } else {
                lemma_reports_concat(prev, add, IssueCategory::OverlappingLines, i);
                if reports(prev, IssueCategory::OverlappingLines, i) {
                    let j = choose|j: int|
                        0 <= j < prev.len() && (#[trigger] prev[j]).category == IssueCategory::OverlappingLines && subject_index(
                            prev[j].subject,
                        ) == i;
                }
                if let Some(l) = map.linedefs@[i] {
                    lemma_first_dup(map, l, 0, i);
                    if first_same(map, l, i) is Some {
                        assert(add[0].category == IssueCategory::OverlappingLines && subject_index(add[0].subject) == i);
                        let m = choose|m: int| 0 <= m < i && #[trigger] dup_at(map, l, m);
                        assert(map.linedefs@[m] is Some);
                    } else {
                        assert(add.len() == 0);
                        assert forall|j: int| 0 <= j < i && #[trigger] map.linedefs@[j] is Some implies !((map.linedefs@[j]->0.v1
                            == map.linedefs@[i]->0.v1 && map.linedefs@[j]->0.v2 == map.linedefs@[i]->0.v2) || (
                        map.linedefs@[j]->0.v1 == map.linedefs@[i]->0.v2 && map.linedefs@[j]->0.v2
                            == map.linedefs@[i]->0.v1)) by {
                            assert(!dup_at(map, l, j));
                        }
                    }
                }
            }
        }
        assert forall|j: int| 0 <= j < overlap_upto(map, k).len() implies subject_index(
            (#[trigger] overlap_upto(map, k)[j]).subject,
        ) < k by {
            if j < prev.len() {
                assert(overlap_upto(map, k)[j] == prev[j]);
            } else {
                assert(overlap_upto(map, k)[j] == add[j - prev.len()]);
            }
        }
    }
}

proof fn lemma_dangling_exact(map: &MapData, k: int)
    requires
        0 <= k <= map.vertices@.len(),
        k <= usize::MAX,
    ensures
        forall|j: int| 0 <= j < dangling_upto(map, k).len() ==> subject_index((#[trigger] dangling_upto(map, k)[j]).subject) < k,
        forall|i: int|
            0 <= i < k ==> (#[trigger] reports(dangling_upto(map, k), IssueCategory::DanglingVertex, i) <==> (
            map.vertices@[i] is Some && !vertex_used(map, i))),
    decreases k,
{
    if k > 0 {
        lemma_dangling_exact(map, k - 1);
        let prev = dangling_upto(map, k - 1);
        let add = match slot(map.vertices@, k - 1) {
            Some(v) => if !vertex_used(map, k - 1) {
                seq![issue(IssueSeverity::Warning, IssueCategory::DanglingVertex,
                    IssueSubject::Vertex { vertex: VertexId((k - 1) as usize), x: v.x, y: v.y })]
            } else {
                Seq::<MapIssue>::empty()
            },
            None => Seq::<MapIssue>::empty(),
        };
        assert(dangling_upto(map, k) == prev + add);
        assert forall|i: int| 0 <= i < k implies (#[trigger] reports(dangling_upto(map, k), IssueCategory::DanglingVertex, i) <==> (
            map.vertices@[i] is Some && !vertex_used(map, i))) by {
            if i < k - 1 {
                lemma_reports_step(prev, add, IssueCategory::DanglingVertex, i, k - 1);
            } else {
                lemma_reports_concat(prev, add, IssueCategory::DanglingVertex, i);
                if reports(prev, IssueCategory::DanglingVertex, i) {
                    let j = choose|j: int|
                        0 <= j < prev.len() && (#[trigger] prev[j]).category == IssueCategory::DanglingVertex && subject_index(
                            prev[j].subject,
                        ) == i;
                }
                if add.len() > 0 {
                    assert(add[0].category == IssueCategory::DanglingVertex && subject_index(add[0].subject) == i);
                }
            }
        }
        assert forall|j: int| 0 <= j < dangling_upto(map, k).len() implies subject_index(
            (#[trigger] dangling_upto(map, k)[j]).subject,
        ) < k by {
            if j < prev.len() {
                assert(dangling_upto(map, k)[j] == prev[j]);
            } else {
                assert(dangling_upto(map, k)[j] == add[j - prev.len()]);
            }
        }
    }
}

proof fn lemma_empty_sector_exact(map: &MapData, k: int)
    requires
        0 <= k <= map.sectors@.len(),
        k <= usize::MAX,
    ensures
        forall|j: int| 0 <= j < empty_sector_upto(map, k).len() ==> subject_index((#[trigger] empty_sector_upto(map, k)[j]).subject) < k,
        forall|i: int|
            0 <= i < k ==> (#[trigger] reports(empty_sector_upto(map, k), IssueCategory::EmptySector, i) <==> (
            map.sectors@[i] is Some && map.sectors@[i]->0.sidedefs@.len() == 0)),
    decreases k,
{
    if k > 0 {
        lemma_empty_sector_exact(map, k - 1);
        let prev = empty_sector_upto(map, k - 1);
        let add = match slot(map.sectors@, k - 1) {
            Some(s) => if s.sidedefs@.len() == 0 {
                seq![issue(IssueSeverity::Warning, IssueCategory::EmptySector, IssueSubject::Sector(SectorId((k - 1) as usize)))]
            } else {
                Seq::<MapIssue>::empty()
            },
            None => Seq::<MapIssue>::empty(),
        };
        assert(empty_sector_upto(map, k) == prev + add);
        assert forall|i: int| 0 <= i < k implies (#[trigger] reports(empty_sector_upto(map, k), IssueCategory::EmptySector, i) <==> (
            map.sectors@[i] is Some && map.sectors@[i]->0.sidedefs@.len() == 0)) by {
            if i < k - 1 {
                lemma_reports_step(prev, add, IssueCategory::EmptySector, i, k - 1);
            } else {
                lemma_reports_concat(prev, add, IssueCategory::EmptySector, i);
                if reports(prev, IssueCategory::EmptySector, i) {
                    let j = choose|j: int|
                        0 <= j < prev.len() && (#[trigger] prev[j]).category == IssueCategory::EmptySector && subject_index(
                            prev[j].subject,
                        ) == i;
                }
                if add.len() > 0 {
                    assert(add[0].category == IssueCategory::EmptySector && subject_index(add[0].subject) == i);
                }
            }
        }
        assert forall|j: int| 0 <= j < empty_sector_upto(map, k).len() implies subject_index(
            (#[trigger] empty_sector_upto(map, k)[j]).subject,
        ) < k by {
            if j < prev.len() {
                assert(empty_sector_upto(map, k)[j] == prev[j]);
            } else {
                assert(empty_sector_upto(map, k)[j] == add[j - prev.len()]);
            }
        }
    }
}

/// Overlapping lines, floating lines, dangling vertices and empty sectors:
/// the analysis reports a line as overlapping exactly when it exists and an
/// earlier line joins the same two vertices, in either direction; a line as
/// floating exactly when it exists with no sidedef on either side; a vertex
/// as dangling exactly when it exists and no line has it as an end; and a
/// sector as empty exactly when it exists and no sidedef is listed for it.
pub proof fn lemma_analysis_reports(map: &MapData, cat: Option<&TextureCatalog>)
    requires
        map.linedefs@.len() <= usize::MAX,
        map.vertices@.len() <= usize::MAX,
        map.sectors@.len() <= usize::MAX,
    ensures
        forall|i: int|
            0 <= i < map.linedefs@.len() ==> (#[trigger] reports(analysis_spec(map, cat), IssueCategory::FloatingLine, i) <==> (
            map.linedefs@[i] is Some && map.linedefs@[i]->0.right is None && map.linedefs@[i]->0.left is None)),
        forall|v: int|
            0 <= v < map.vertices@.len() ==> (#[trigger] reports(analysis_spec(map, cat), IssueCategory::DanglingVertex, v) <==> (
            map.vertices@[v] is Some && forall|j: int|
                0 <= j < map.linedefs@.len() && #[trigger] map.linedefs@[j] is Some ==> map.linedefs@[j]->0.v1.0 != v
                    && map.linedefs@[j]->0.v2.0 != v)),
        forall|i: int|
            0 <= i < map.sectors@.len() ==> (#[trigger] reports(analysis_spec(map, cat), IssueCategory::EmptySector, i) <==> (
            map.sectors@[i] is Some && map.sectors@[i]->0.sidedefs@.len() == 0)),
        forall|i: int|
            0 <= i < map.linedefs@.len() ==> (#[trigger] reports(analysis_spec(map, cat), IssueCategory::OverlappingLines, i) <==> (
            map.linedefs@[i] is Some && exists|j: int|
                0 <= j < i && #[trigger] map.linedefs@[j] is Some && ((map.linedefs@[j]->0.v1 == map.linedefs@[i]->0.v1
                    && map.linedefs@[j]->0.v2 == map.linedefs@[i]->0.v2) || (map.linedefs@[j]->0.v1
                    == map.linedefs@[i]->0.v2 && map.linedefs@[j]->0.v2 == map.linedefs@[i]->0.v1)))),
{
    let nl = map.linedefs@.len() as int;
    let nv = map.vertices@.len() as int;
    let ns = map.sectors@.len() as int;
    lemma_floating_exact(map, nl);
    lemma_dangling_exact(map, nv);
    lemma_empty_sector_exact(map, ns);
    lemma_overlap_exact(map, nl);
    lemma_overlap_key(map, nl);
    lemma_zero_length_key(map, nl);
    lemma_dangling_key(map, nv);
    lemma_empty_sector_key(map, ns);
    lemma_floating_key(map, nl);
    let a = overlap_upto(map, nl);
    let b = zero_length_upto(map, nl);
    let c2 = dangling_upto(map, nv);
    let d = empty_sector_upto(map, ns);
    let e = floating_upto(map, nl);
    let base = a + b + c2 + d + e;
    let tail = match cat {
        Some(c) => missing_flat_upto(map, c, ns) + missing_texture_upto(map, c, map.sidedefs@.len() as int),
        None => Seq::<MapIssue>::empty(),
    };
    assert(analysis_spec(map, cat) =~= base + tail);
    if let Some(c) = cat {
        lemma_missing_flat_key(map, c, ns);
        lemma_missing_texture_key(map, c, map.sidedefs@.len() as int);
    }
    assert forall|c: IssueCategory, i: int|
        c == IssueCategory::FloatingLine || c == IssueCategory::DanglingVertex || c == IssueCategory::EmptySector || c
            == IssueCategory::OverlappingLines implies (#[trigger] reports(analysis_spec(map, cat), c, i) <==> (c
            == IssueCategory::FloatingLine && reports(e, c, i)) || (c == IssueCategory::DanglingVertex && reports(c2, c, i)) || (c
            == IssueCategory::EmptySector && reports(d, c, i)) || (c == IssueCategory::OverlappingLines && reports(a, c, i))) by {
        lemma_reports_concat(base, tail, c, i);
        lemma_reports_concat(a + b + c2 + d, e, c, i);
        lemma_reports_concat(a + b + c2, d, c, i);
        lemma_reports_concat(a + b, c2, c, i);
        lemma_reports_concat(a, b, c, i);
        if c != IssueCategory::OverlappingLines {
            lemma_reports_keyed(a, IssueSeverity::Error, IssueCategory::OverlappingLines, c, i);
        }
        lemma_reports_keyed(b, IssueSeverity::Error, IssueCategory::ZeroLengthLine, c, i);
        if c != IssueCategory::DanglingVertex {
            lemma_reports_keyed(c2, IssueSeverity::Warning, IssueCategory::DanglingVertex, c, i);
        }
        if c != IssueCategory::EmptySector {
            lemma_reports_keyed(d, IssueSeverity::Warning, IssueCategory::EmptySector, c, i);
        }
        if c != IssueCategory::FloatingLine {
            lemma_reports_keyed(e, IssueSeverity::Warning, IssueCategory::FloatingLine, c, i);
        }
        if let Some(ct) = cat {
            let mf = missing_flat_upto(map, ct, ns);
            let mt = missing_texture_upto(map, ct, map.sidedefs@.len() as int);
            lemma_reports_concat(mf, mt, c, i);
            lemma_reports_keyed(mf, IssueSeverity::Warning, IssueCategory::MissingFlat, c, i);
            lemma_reports_keyed(mt, IssueSeverity::Warning, IssueCategory::MissingTexture, c, i);
        } else {
            assert(!reports(tail, c, i));
        }
    }
    assert forall|v: int| 0 <= v < nv implies (!vertex_used(map, v) <==> forall|j: int|
        0 <= j < map.linedefs@.len() && #[trigger] map.linedefs@[j] is Some ==> map.linedefs@[j]->0.v1.0 != v
            && map.linedefs@[j]->0.v2.0 != v) by {
        if vertex_used(map, v) {
            let j = choose|j: int| #[trigger] uses(map, j, v);
            assert(0 <= j < map.linedefs@.len() && map.linedefs@[j] is Some);
        } else {
            assert forall|j: int| 0 <= j < map.linedefs@.len() && #[trigger] map.linedefs@[j] is Some implies map.linedefs@[j]->0.v1.0
                != v && map.linedefs@[j]->0.v2.0 != v by {
                assert(!uses(map, j, v));
            }
        }
    }
}

/// Some issue of the list reports wall texture `slot` of sidedef `side` as
/// missing.
pub open spec fn reports_wall(issues: Seq<MapIssue>, side: int, slot: WallSlot) -> bool {
    exists|j: int|
        0 <= j < issues.len() && (#[trigger] issues[j]).category == IssueCategory::MissingTexture
            && issues[j].subject is WallTexture && issues[j].subject->WallTexture_side.0 == side
            && issues[j].subject->WallTexture_slot == slot
}

/// Some issue of the list reports flat `slot` of sector `sector` as missing.
pub open spec fn reports_flat(issues: Seq<MapIssue>, sector: int, slot: FlatSlot) -> bool {
    exists|j: int|
        0 <= j < issues.len() && (#[trigger] issues[j]).category == IssueCategory::MissingFlat && issues[j].subject is Flat
            && issues[j].subject->Flat_sector.0 == sector && issues[j].subject->Flat_slot == slot
}

proof fn lemma_reports_wall_concat(a: Seq<MapIssue>, b: Seq<MapIssue>, side: int, slot: WallSlot)
    ensures
        reports_wall(a + b, side, slot) <==> reports_wall(a, side, slot) || reports_wall(b, side, slot),
{
    let ab = a + b;
    if reports_wall(ab, side, slot) {
        let j = choose|j: int|
            0 <= j < ab.len() && (#[trigger] ab[j]).category == IssueCategory::MissingTexture && ab[j].subject is WallTexture
                && ab[j].subject->WallTexture_side.0 == side && ab[j].subject->WallTexture_slot == slot;
        if j < a.len() {
            assert(ab[j] == a[j]);
        } else {
            assert(ab[j] == b[j - a.len()]);
        }
    }
    if reports_wall(a, side, slot) {
        let j = choose|j: int|
            0 <= j < a.len() && (#[trigger] a[j]).category == IssueCategory::MissingTexture && a[j].subject is WallTexture
                && a[j].subject->WallTexture_side.0 == side && a[j].subject->WallTexture_slot == slot;
        assert(ab[j] == a[j]);
    }
    if reports_wall(b, side, slot) {
        let j = choose|j: int|
            0 <= j < b.len() && (#[trigger] b[j]).category == IssueCategory::MissingTexture && b[j].subject is WallTexture
                && b[j].subject->WallTexture_side.0 == side && b[j].subject->WallTexture_slot == slot;
        assert(ab[a.len() + j] == b[j]);
    }
}

proof fn lemma_reports_flat_concat(a: Seq<MapIssue>, b: Seq<MapIssue>, sector: int, slot: FlatSlot)
    ensures
        reports_flat(a + b, sector, slot) <==> reports_flat(a, sector, slot) || reports_flat(b, sector, slot),
{
    let ab = a + b;
    if reports_flat(ab, sector, slot) {
        let j = choose|j: int|
            0 <= j < ab.len() && (#[trigger] ab[j]).category == IssueCategory::MissingFlat && ab[j].subject is Flat
                && ab[j].subject->Flat_sector.0 == sector && ab[j].subject->Flat_slot == slot;
        if j < a.len() {
            assert(ab[j] == a[j]);
        } else {
            assert(ab[j] == b[j - a.len()]);
        }
    }
    if reports_flat(a, sector, slot) {
        let j = choose|j: int|
            0 <= j < a.len() && (#[trigger] a[j]).category == IssueCategory::MissingFlat && a[j].subject is Flat
                && a[j].subject->Flat_sector.0 == sector && a[j].subject->Flat_slot == slot;
        assert(ab[j] == a[j]);
    }
    if reports_flat(b, sector, slot) {
        let j = choose|j: int|
            0 <= j < b.len() && (#[trigger] b[j]).category == IssueCategory::MissingFlat && b[j].subject is Flat
                && b[j].subject->Flat_sector.0 == sector && b[j].subject->Flat_slot == slot;
        assert(ab[a.len() + j] == b[j]);
    }
}

proof fn lemma_missing_texture_exact(map: &MapData, cat: &TextureCatalog, k: int)
    requires
        0 <= k <= map.sidedefs@.len(),
        k <= usize::MAX,
    ensures
        forall|j: int|
            0 <= j < missing_texture_upto(map, cat, k).len() ==> subject_index(
                (#[trigger] missing_texture_upto(map, cat, k)[j]).subject,
            ) < k,
        forall|i: int, slot: WallSlot|
            0 <= i < k ==> (#[trigger] reports_wall(missing_texture_upto(map, cat, k), i, slot) <==> (map.sidedefs@[i] is Some
                && !resolves(
                cat,
                match slot {
                    WallSlot::Upper => map.sidedefs@[i]->0.upper_texture,
                    WallSlot::Lower => map.sidedefs@[i]->0.lower_texture,
                    WallSlot::Middle => map.sidedefs@[i]->0.middle_texture,
                },
            ))),
    decreases k,
{
    if k > 0 {
        lemma_missing_texture_exact(map, cat, k - 1);
        let prev = missing_texture_upto(map, cat, k - 1);
        let cur = missing_texture_upto(map, cat, k);
        let add = match slot(map.sidedefs@, k - 1) {
            Some(sd) => {
                let id = SidedefId((k - 1) as usize);
                wall_check(cat, id, WallSlot::Upper, sd.upper_texture) + wall_check(cat, id, WallSlot::Lower, sd.lower_texture)
                    + wall_check(cat, id, WallSlot::Middle, sd.middle_texture)
            },
            None => Seq::<MapIssue>::empty(),
        };
        assert(cur == prev + add);
        assert forall|j: int| 0 <= j < add.len() implies subject_index((#[trigger] add[j]).subject) == k - 1 && add[j].subject
            is WallTexture by {}
        assert forall|i: int, sl: WallSlot| 0 <= i < k implies (#[trigger] reports_wall(cur, i, sl) <==> (map.sidedefs@[i] is Some
            && !resolves(
            cat,
            match sl {
                WallSlot::Upper => map.sidedefs@[i]->0.upper_texture,
                WallSlot::Lower => map.sidedefs@[i]->0.lower_texture,
                WallSlot::Middle => map.sidedefs@[i]->0.middle_texture,
            },
        ))) by {
            lemma_reports_wall_concat(prev, add, i, sl);
            if i < k - 1 {
                if reports_wall(add, i, sl) {
                    let j = choose|j: int|
                        0 <= j < add.len() && (#[trigger] add[j]).category == IssueCategory::MissingTexture && add[j].subject
                            is WallTexture && add[j].subject->WallTexture_side.0 == i && add[j].subject->WallTexture_slot == sl;
                    assert(subject_index(add[j].subject) == k - 1);
                }
            } else {
                if reports_wall(prev, i, sl) {
                    let j = choose|j: int|
                        0 <= j < prev.len() && (#[trigger] prev[j]).category == IssueCategory::MissingTexture && prev[j].subject
                            is WallTexture && prev[j].subject->WallTexture_side.0 == i && prev[j].subject->WallTexture_slot == sl;
                    assert(subject_index(prev[j].subject) < k - 1);
                }
                if let Some(sd) = map.sidedefs@[i] {
                    let id = SidedefId((k - 1) as usize);
                    let wu = wall_check(cat, id, WallSlot::Upper, sd.upper_texture);
                    let wl = wall_check(cat, id, WallSlot::Lower, sd.lower_texture);
                    let wm = wall_check(cat, id, WallSlot::Middle, sd.middle_texture);
                    lemma_reports_wall_concat(wu + wl, wm, i, sl);
                    lemma_reports_wall_concat(wu, wl, i, sl);
                    if wu.len() > 0 {
                        assert(wu[0].category == IssueCategory::MissingTexture);
                    }
                    if wl.len() > 0 {
                        assert(wl[0].category == IssueCategory::MissingTexture);
                    }
                    if wm.len() > 0 {
                        assert(wm[0].category == IssueCategory::MissingTexture);
                    }
                    if reports_wall(wu, i, sl) {
                        let j = choose|j: int|
                            0 <= j < wu.len() && (#[trigger] wu[j]).category == IssueCategory::MissingTexture && wu[j].subject
                                is WallTexture && wu[j].subject->WallTexture_side.0 == i && wu[j].subject->WallTexture_slot == sl;
                    }
                    if reports_wall(wl, i, sl) {
                        let j = choose|j: int|
                            0 <= j < wl.len() && (#[trigger] wl[j]).category == IssueCategory::MissingTexture && wl[j].subject
                                is WallTexture && wl[j].subject->WallTexture_side.0 == i && wl[j].subject->WallTexture_slot == sl;
                    }
                    if reports_wall(wm, i, sl) {
                        let j = choose|j: int|
                            0 <= j < wm.len() && (#[trigger] wm[j]).category == IssueCategory::MissingTexture && wm[j].subject
                                is WallTexture && wm[j].subject->WallTexture_side.0 == i && wm[j].subject->WallTexture_slot == sl;
                    }
                }
            }
        }
        assert forall|j: int| 0 <= j < cur.len() implies subject_index((#[trigger] cur[j]).subject) < k by {
            if j < prev.len() {
                assert(cur[j] == prev[j]);
            } else {
                assert(cur[j] == add[j - prev.len()]);
            }
        }
    }
}

proof fn lemma_missing_flat_exact(map: &MapData, cat: &TextureCatalog, k: int)
    requires
        0 <= k <= map.sectors@.len(),
        k <= usize::MAX,
    ensures
        forall|j: int|
            0 <= j < missing_flat_upto(map, cat, k).len() ==> subject_index(
                (#[trigger] missing_flat_upto(map, cat, k)[j]).subject,
            ) < k,
        forall|i: int, slot: FlatSlot|
            0 <= i < k ==> (#[trigger] reports_flat(missing_flat_upto(map, cat, k), i, slot) <==> (map.sectors@[i] is Some
                && !resolves(
                cat,
                match slot {
                    FlatSlot::Floor => map.sectors@[i]->0.floor_texture,
                    FlatSlot::Ceiling => map.sectors@[i]->0.ceiling_texture,
                },
            ))),
    decreases k,
{
    if k > 0 {
        lemma_missing_flat_exact(map, cat, k - 1);
        let prev = missing_flat_upto(map, cat, k - 1);
        let cur = missing_flat_upto(map, cat, k);
        let add = match slot(map.sectors@, k - 1) {
            Some(sc) => {
                let id = SectorId((k - 1) as usize);
                flat_check(cat, id, FlatSlot::Floor, sc.floor_texture) + flat_check(cat, id, FlatSlot::Ceiling, sc.ceiling_texture)
            },
            None => Seq::<MapIssue>::empty(),
        };
        assert(cur == prev + add);
        assert forall|j: int| 0 <= j < add.len() implies subject_index((#[trigger] add[j]).subject) == k - 1 by {}
        assert forall|i: int, sl: FlatSlot| 0 <= i < k implies (#[trigger] reports_flat(cur, i, sl) <==> (map.sectors@[i] is Some
            && !resolves(
            cat,
            match sl {
                FlatSlot::Floor => map.sectors@[i]->0.floor_texture,
                FlatSlot::Ceiling => map.sectors@[i]->0.ceiling_texture,
            },
        ))) by {
            lemma_reports_flat_concat(prev, add, i, sl);
            if i < k - 1 {
                if reports_flat(add, i, sl) {
                    let j = choose|j: int|
                        0 <= j < add.len() && (#[trigger] add[j]).category == IssueCategory::MissingFlat && add[j].subject is Flat
                            && add[j].subject->Flat_sector.0 == i && add[j].subject->Flat_slot == sl;
                    assert(subject_index(add[j].subject) == k - 1);
                }
            } else {
                if reports_flat(prev, i, sl) {
                    let j = choose|j: int|
                        0 <= j < prev.len() && (#[trigger] prev[j]).category == IssueCategory::MissingFlat && prev[j].subject is Flat
                            && prev[j].subject->Flat_sector.0 == i && prev[j].subject->Flat_slot == sl;
                    assert(subject_index(prev[j].subject) < k - 1);
                }
                if let Some(sc) = map.sectors@[i] {
                    let id = SectorId((k - 1) as usize);
                    let ff = flat_check(cat, id, FlatSlot::Floor, sc.floor_texture);
                    let fc = flat_check(cat, id, FlatSlot::Ceiling, sc.ceiling_texture);
                    lemma_reports_flat_concat(ff, fc, i, sl);
                    if ff.len() > 0 {
                        assert(ff[0].category == IssueCategory::MissingFlat);
                    }
                    if fc.len() > 0 {
                        assert(fc[0].category == IssueCategory::MissingFlat);
                    }
                    if reports_flat(ff, i, sl) {
                        let j = choose|j: int|
                            0 <= j < ff.len() && (#[trigger] ff[j]).category == IssueCategory::MissingFlat && ff[j].subject is Flat
                                && ff[j].subject->Flat_sector.0 == i && ff[j].subject->Flat_slot == sl;
                    }
                    if reports_flat(fc, i, sl) {
                        let j = choose|j: int|
                            0 <= j < fc.len() && (#[trigger] fc[j]).category == IssueCategory::MissingFlat && fc[j].subject is Flat
                                && fc[j].subject->Flat_sector.0 == i && fc[j].subject->Flat_slot == sl;
                    }
                }
            }
        }
        assert forall|j: int| 0 <= j < cur.len() implies subject_index((#[trigger] cur[j]).subject) < k by {
            if j < prev.len() {
                assert(cur[j] == prev[j]);
            } else {
                assert(cur[j] == add[j - prev.len()]);
            }
        }
    }
}

proof fn lemma_wall_flat_keyed(a: Seq<MapIssue>, sev: IssueSeverity, k: IssueCategory, i: int, ws: WallSlot, fs: FlatSlot)
    requires
        all_keyed(a, sev, k),
    ensures
        k != IssueCategory::MissingTexture ==> !reports_wall(a, i, ws),
        k != IssueCategory::MissingFlat ==> !reports_flat(a, i, fs),
{
    if k != IssueCategory::MissingTexture && reports_wall(a, i, ws) {
        let j = choose|j: int|
            0 <= j < a.len() && (#[trigger] a[j]).category == IssueCategory::MissingTexture && a[j].subject is WallTexture
                && a[j].subject->WallTexture_side.0 == i && a[j].subject->WallTexture_slot == ws;
    }
    if k != IssueCategory::MissingFlat && reports_flat(a, i, fs) {
        let j = choose|j: int|
            0 <= j < a.len() && (#[trigger] a[j]).category == IssueCategory::MissingFlat && a[j].subject is Flat
                && a[j].subject->Flat_sector.0 == i && a[j].subject->Flat_slot == fs;
    }
}

/// Missing textures and flats: with resources loaded, the analysis reports
/// wall texture `slot` of sidedef `i` as missing exactly when the sidedef
/// exists and that texture neither is blank nor names a known texture or
/// flat (upper case), and likewise the floor or ceiling flat of a sector;
/// without resources it reports neither.
pub proof fn lemma_analysis_textures(map: &MapData, cat: Option<&TextureCatalog>)
    requires
        map.sidedefs@.len() <= usize::MAX,
        map.sectors@.len() <= usize::MAX,
    ensures
        forall|i: int, slot: WallSlot|
            0 <= i < map.sidedefs@.len() ==> (#[trigger] reports_wall(analysis_spec(map, cat), i, slot) <==> (cat is Some
                && map.sidedefs@[i] is Some && !resolves(
                cat->0,
                match slot {
                    WallSlot::Upper => map.sidedefs@[i]->0.upper_texture,
                    WallSlot::Lower => map.sidedefs@[i]->0.lower_texture,
                    WallSlot::Middle => map.sidedefs@[i]->0.middle_texture,
                },
            ))),
        forall|i: int, slot: FlatSlot|
            0 <= i < map.sectors@.len() ==> (#[trigger] reports_flat(analysis_spec(map, cat), i, slot) <==> (cat is Some
                && map.sectors@[i] is Some && !resolves(
                cat->0,
                match slot {
                    FlatSlot::Floor => map.sectors@[i]->0.floor_texture,
                    FlatSlot::Ceiling => map.sectors@[i]->0.ceiling_texture,
                },
            ))),
{
    let nl = map.linedefs@.len() as int;
    let nv = map.vertices@.len() as int;
    let ns = map.sectors@.len() as int;
    let nd = map.sidedefs@.len() as int;
    lemma_overlap_key(map, nl);
    lemma_zero_length_key(map, nl);
    lemma_dangling_key(map, nv);
    lemma_empty_sector_key(map, ns);
    lemma_floating_key(map, nl);
    let a = overlap_upto(map, nl);
    let b = zero_length_upto(map, nl);
    let c2 = dangling_upto(map, nv);
    let d = empty_sector_upto(map, ns);
    let e = floating_upto(map, nl);
    let base = a + b + c2 + d + e;
    let tail = match cat {
        Some(c) => missing_flat_upto(map, c, ns) + missing_texture_upto(map, c, nd),
        None => Seq::<MapIssue>::empty(),
    };
    assert(analysis_spec(map, cat) =~= base + tail);
    if let Some(c) = cat {
        lemma_missing_flat_key(map, c, ns);
        lemma_missing_texture_key(map, c, nd);
        lemma_missing_flat_exact(map, c, ns);
        lemma_missing_texture_exact(map, c, nd);
    }
    assert forall|i: int, ws: WallSlot| 0 <= i < nd implies (#[trigger] reports_wall(analysis_spec(map, cat), i, ws) <==> (cat
        is Some && map.sidedefs@[i] is Some && !resolves(
        cat->0,
        match ws {
            WallSlot::Upper => map.sidedefs@[i]->0.upper_texture,
            WallSlot::Lower => map.sidedefs@[i]->0.lower_texture,
            WallSlot::Middle => map.sidedefs@[i]->0.middle_texture,
        },
    ))) by {
        lemma_reports_wall_concat(base, tail, i, ws);
        lemma_reports_wall_concat(a + b + c2 + d, e, i, ws);
        lemma_reports_wall_concat(a + b + c2, d, i, ws);
        lemma_reports_wall_concat(a + b, c2, i, ws);
        lemma_reports_wall_concat(a, b, i, ws);
        lemma_wall_flat_keyed(a, IssueSeverity::Error, IssueCategory::OverlappingLines, i, ws, FlatSlot::Floor);
        lemma_wall_flat_keyed(b, IssueSeverity::Error, IssueCategory::ZeroLengthLine, i, ws, FlatSlot::Floor);
        lemma_wall_flat_keyed(c2, IssueSeverity::Warning, IssueCategory::DanglingVertex, i, ws, FlatSlot::Floor);
        lemma_wall_flat_keyed(d, IssueSeverity::Warning, IssueCategory::EmptySector, i, ws, FlatSlot::Floor);
        lemma_wall_flat_keyed(e, IssueSeverity::Warning, IssueCategory::FloatingLine, i, ws, FlatSlot::Floor);
        if let Some(c) = cat {
            let mf = missing_flat_upto(map, c, ns);
            let mt = missing_texture_upto(map, c, nd);
            lemma_reports_wall_concat(mf, mt, i, ws);
            lemma_wall_flat_keyed(mf, IssueSeverity::Warning, IssueCategory::MissingFlat, i, ws, FlatSlot::Floor);
        } else {
            assert(!reports_wall(tail, i, ws));
        }
    }
    assert forall|i: int, fs: FlatSlot| 0 <= i < ns implies (#[trigger] reports_flat(analysis_spec(map, cat), i, fs) <==> (cat
        is Some && map.sectors@[i] is Some && !resolves(
        cat->0,
        match fs {
            FlatSlot::Floor => map.sectors@[i]->0.floor_texture,
            FlatSlot::Ceiling => map.sectors@[i]->0.ceiling_texture,
        },
    ))) by {
        lemma_reports_flat_concat(base, tail, i, fs);
        lemma_reports_flat_concat(a + b + c2 + d, e, i, fs);
        lemma_reports_flat_concat(a + b + c2, d, i, fs);
        lemma_reports_flat_concat(a + b, c2, i, fs);
        lemma_reports_flat_concat(a, b, i, fs);
        lemma_wall_flat_keyed(a, IssueSeverity::Error, IssueCategory::OverlappingLines, i, WallSlot::Upper, fs);
        lemma_wall_flat_keyed(b, IssueSeverity::Error, IssueCategory::ZeroLengthLine, i, WallSlot::Upper, fs);
        lemma_wall_flat_keyed(c2, IssueSeverity::Warning, IssueCategory::DanglingVertex, i, WallSlot::Upper, fs);
        lemma_wall_flat_keyed(d, IssueSeverity::Warning, IssueCategory::EmptySector, i, WallSlot::Upper, fs);
        lemma_wall_flat_keyed(e, IssueSeverity::Warning, IssueCategory::FloatingLine, i, WallSlot::Upper, fs);
        if let Some(c) = cat {
            let mf = missing_flat_upto(map, c, ns);
            let mt = missing_texture_upto(map, c, nd);
            lemma_reports_flat_concat(mf, mt, i, fs);
            lemma_wall_flat_keyed(mt, IssueSeverity::Warning, IssueCategory::MissingTexture, i, WallSlot::Upper, fs);
        } else {
            assert(!reports_flat(tail, i, fs));
        }
    }
}

/// Zero-length lines: the analysis reports line `i` as zero-length exactly
/// when the line exists and both its vertices exist and sit at the same
/// point.
pub proof fn lemma_analysis_zero_length(map: &MapData, cat: Option<&TextureCatalog>)
    requires
        map.linedefs@.len() <= usize::MAX,
    ensures
        forall|i: int|
            0 <= i < map.linedefs@.len() ==> (#[trigger] reports_zero_length(analysis_spec(map, cat), i) <==> (
            map.linedefs@[i] is Some && map.vertex_at(map.linedefs@[i]->0.v1) is Some && map.vertex_at(
                map.linedefs@[i]->0.v2,
            ) is Some && map.vertex_at(map.linedefs@[i]->0.v1)->0.x == map.vertex_at(map.linedefs@[i]->0.v2)->0.x
                && map.vertex_at(map.linedefs@[i]->0.v1)->0.y == map.vertex_at(map.linedefs@[i]->0.v2)->0.y)),
{
    let nl = map.linedefs@.len() as int;
    lemma_zero_length_exact(map, nl);
    lemma_overlap_key(map, nl);
    lemma_dangling_key(map, map.vertices@.len() as int);
    lemma_empty_sector_key(map, map.sectors@.len() as int);
    lemma_floating_key(map, nl);
    if let Some(c) = cat {
        lemma_missing_flat_key(map, c, map.sectors@.len() as int);
        lemma_missing_texture_key(map, c, map.sidedefs@.len() as int);
    }
    let r = analysis_spec(map, cat);
    let a = overlap_upto(map, nl);
    let b = zero_length_upto(map, nl);
    let c2 = dangling_upto(map, map.vertices@.len() as int);
    let d = empty_sector_upto(map, map.sectors@.len() as int);
    let e = floating_upto(map, nl);
    let o1 = a.len();
    let o2 = o1 + b.len();
    let o3 = o2 + c2.len();
    let o4 = o3 + d.len();
    let o5 = o4 + e.len();
    assert forall|i: int| 0 <= i < nl implies (#[trigger] reports_zero_length(r, i) <==> reports_zero_length(b, i)) by {
        if reports_zero_length(r, i) {
            let j = choose|j: int|
                0 <= j < r.len() && (#[trigger] r[j]).category == IssueCategory::ZeroLengthLine && r[j].subject is ZeroLength
                    && r[j].subject->ZeroLength_line.0 == i;
            assert(r[j] == if j < o1 { a[j] } else if j < o2 { b[j - o1] } else if j < o3 { c2[j - o2] } else if j < o4 {
                d[j - o3] } else if j < o5 { e[j - o4] } else if j < o5 + missing_flat_upto(map, cat->0, map.sectors@.len() as int).len() {
                missing_flat_upto(map, cat->0, map.sectors@.len() as int)[j - o5] } else {
                missing_texture_upto(map, cat->0, map.sidedefs@.len() as int)[j - o5 - missing_flat_upto(map, cat->0, map.sectors@.len() as int).len()] });
            if o1 <= j < o2 {
                assert(b[j - o1] == r[j]);
            }
        }
        if reports_zero_length(b, i) {
            let j = choose|j: int|
                0 <= j < b.len() && (#[trigger] b[j]).category == IssueCategory::ZeroLengthLine && b[j].subject is ZeroLength
                    && b[j].subject->ZeroLength_line.0 == i;
            assert(r[o1 + j] == b[j]);
        }
    }
}

/// The analysis lists issues sorted by severity (errors first), then by
/// category label.
pub proof fn lemma_analysis_sorted(map: &MapData, cat: Option<&TextureCatalog>)
    ensures
        forall|i: int, j: int|
            0 <= i < j < analysis_spec(map, cat).len() ==> key_le(
                #[trigger] analysis_spec(map, cat)[i],
                #[trigger] analysis_spec(map, cat)[j],
            ),
{
    let nl = map.linedefs@.len() as int;
    lemma_overlap_key(map, nl);
    lemma_zero_length_key(map, nl);
    lemma_dangling_key(map, map.vertices@.len() as int);
    lemma_empty_sector_key(map, map.sectors@.len() as int);
    lemma_floating_key(map, nl);
    if let Some(c) = cat {
        lemma_missing_flat_key(map, c, map.sectors@.len() as int);
        lemma_missing_texture_key(map, c, map.sidedefs@.len() as int);
    }
    let r = analysis_spec(map, cat);
    let a = overlap_upto(map, nl);
    let b = zero_length_upto(map, nl);
    let c2 = dangling_upto(map, map.vertices@.len() as int);
    let d = empty_sector_upto(map, map.sectors@.len() as int);
    let e = floating_upto(map, nl);
    assert forall|i: int, j: int| 0 <= i < j < r.len() implies key_le(#[trigger] r[i], #[trigger] r[j]) by {
        let o1 = a.len();
        let o2 = o1 + b.len();
        let o3 = o2 + c2.len();
        let o4 = o3 + d.len();
        let o5 = o4 + e.len();
        assert(r[i] == if i < o1 { a[i] } else if i < o2 { b[i - o1] } else if i < o3 { c2[i - o2] } else if i < o4 { d[i - o3] }
            else if i < o5 { e[i - o4] } else if i < o5 + missing_flat_upto(map, cat->0, map.sectors@.len() as int).len() {
                missing_flat_upto(map, cat->0, map.sectors@.len() as int)[i - o5] } else {
                missing_texture_upto(map, cat->0, map.sidedefs@.len() as int)[i - o5 - missing_flat_upto(map, cat->0, map.sectors@.len() as int).len()] });
        assert(r[j] == if j < o1 { a[j] } else if j < o2 { b[j - o1] } else if j < o3 { c2[j - o2] } else if j < o4 { d[j - o3] }
            else if j < o5 { e[j - o4] } else if j < o5 + missing_flat_upto(map, cat->0, map.sectors@.len() as int).len() {
                missing_flat_upto(map, cat->0, map.sectors@.len() as int)[j - o5] } else {
                missing_texture_upto(map, cat->0, map.sidedefs@.len() as int)[j - o5 - missing_flat_upto(map, cat->0, map.sectors@.len() as int).len()] });
    }
}

} // verus!
