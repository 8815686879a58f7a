// Map analysis: which issues a map has, in report order.

use doombuilder::analysis::{
    analyze_map, resolve, texture_name_bytes, texture_name_is_blank, to_upper, FlatSlot, IssueCategory,
    IssueSeverity, IssueSubject, MapIssue, TextureCatalog, WallSlot,
};
use doombuilder::map::{
    LinedefId, MapData, MapLinedef, MapSector, MapSidedef, MapVertex, SectorId, SidedefId, TextureName,
    VertexId,
};

fn name(s: &str) -> TextureName {
    let mut b = [0u8; 8];
    b[..s.len()].copy_from_slice(s.as_bytes());
    TextureName(b)
}

fn line(a: VertexId, b: VertexId, right: Option<SidedefId>) -> MapLinedef {
    MapLinedef { v1: a, v2: b, flags: 0, special: 0, args: [0; 5], tag: 0, right, left: None }
}

/// A closed square sector with its sidedef index filled in.
fn square_map() -> MapData {
    let mut map = MapData::new();
    let v: Vec<VertexId> = [(0, 0), (64, 0), (64, 64), (0, 64)]
        .iter()
        .map(|&(x, y)| map.insert_vertex(MapVertex { x, y }))
        .collect();
    let sec = map.insert_sector(MapSector {
        floor_height: 0,
        ceiling_height: 128,
        floor_texture: name("FLAT1"),
        ceiling_texture: name("FLAT2"),
        light: 192,
        special: 0,
        tag: 0,
        sidedefs: Vec::new(),
    });
    let mut sides = Vec::new();
    for i in 0..4 {
        let s = map.insert_sidedef(MapSidedef {
            sector: sec,
            x_offset: 0,
            y_offset: 0,
            upper_texture: name("-"),
            lower_texture: name("-"),
            middle_texture: name("wall"),
        });
        sides.push(s);
        map.insert_linedef(line(v[i], v[(i + 1) % 4], Some(s)));
    }
    if let Some(Some(sector)) = map.sectors.get_mut(sec.0) {
        sector.sidedefs = sides;
    }
    map
}

#[test]
fn clean_square_has_no_issues() {
    let map = square_map();
    assert!(analyze_map(&map, None).is_empty());
}

#[test]
fn issues_come_errors_first_then_by_category() {
    let mut map = square_map();
    // Unused vertex.
    let lone = map.insert_vertex(MapVertex { x: 100, y: 100 });
    // Zero-length line, with no sidedefs (so also floating).
    let a = map.insert_vertex(MapVertex { x: 10, y: 10 });
    let b = map.insert_vertex(MapVertex { x: 10, y: 10 });
    let zero = map.insert_linedef(line(a, b, None));
    // Line 0 repeated backwards, no sidedefs.
    let dup = map.insert_linedef(line(VertexId(1), VertexId(0), None));
    // A sector no sidedef faces.
    let empty = map.insert_sector(MapSector {
        floor_height: 0,
        ceiling_height: 64,
        floor_texture: name("FLAT1"),
        ceiling_texture: name("FLAT1"),
        light: 128,
        special: 0,
        tag: 0,
        sidedefs: Vec::new(),
    });

    let issues = analyze_map(&map, None);
    let cats: Vec<(IssueSeverity, IssueCategory)> = issues.iter().map(|i| (i.severity, i.category)).collect();
    assert_eq!(cats, vec![
        (IssueSeverity::Error, IssueCategory::OverlappingLines),
        (IssueSeverity::Error, IssueCategory::ZeroLengthLine),
        (IssueSeverity::Warning, IssueCategory::DanglingVertex),
        (IssueSeverity::Warning, IssueCategory::EmptySector),
        (IssueSeverity::Warning, IssueCategory::FloatingLine),
        (IssueSeverity::Warning, IssueCategory::FloatingLine),
    ]);
    assert!(matches!(issues[0].subject, IssueSubject::Overlap { line, other } if line == dup && other == LinedefId(0)));
    assert!(matches!(issues[1].subject, IssueSubject::ZeroLength { line, x: 10, y: 10 } if line == zero));
    assert!(matches!(issues[2].subject, IssueSubject::Vertex { vertex, x: 100, y: 100 } if vertex == lone));
    assert!(matches!(issues[3].subject, IssueSubject::Sector(s) if s == empty));
    assert!(matches!(issues[4].subject, IssueSubject::Line(l) if l == zero));
    assert!(matches!(issues[5].subject, IssueSubject::Line(l) if l == dup));
}

#[test]
fn missing_textures_only_with_resources() {
    let map = square_map();
    let cat = TextureCatalog { textures: vec![b"WALL".to_vec()], flats: vec![b"FLAT1".to_vec()] };
    let issues: Vec<MapIssue> = analyze_map(&map, Some(&cat));
    assert_eq!(issues.len(), 1);
    assert_eq!(issues[0].severity, IssueSeverity::Warning);
    assert_eq!(issues[0].category, IssueCategory::MissingFlat);
    assert!(matches!(issues[0].subject, IssueSubject::Flat { sector: SectorId(0), slot: FlatSlot::Ceiling, .. }));

    let bare = TextureCatalog { textures: Vec::new(), flats: vec![b"FLAT1".to_vec(), b"FLAT2".to_vec()] };
    let issues = analyze_map(&map, Some(&bare));
    assert_eq!(issues.len(), 4);
    for (k, issue) in issues.iter().enumerate() {
        assert_eq!(issue.category, IssueCategory::MissingTexture);
        assert!(matches!(issue.subject, IssueSubject::WallTexture { side, slot: WallSlot::Middle, .. } if side == SidedefId(k)));
    }
}

#[test]
fn labels_of_issues() {
    assert_eq!(IssueSeverity::Error.label(), "ERROR");
    assert_eq!(IssueSeverity::Warning.label(), "WARN");
    assert_eq!(IssueCategory::MissingFlat.label(), "Missing flat");
    assert_eq!(IssueCategory::ZeroLengthLine.label(), "Zero-length line");
}

#[test]
fn texture_names_trim_and_resolve() {
    assert_eq!(texture_name_bytes(&name("STARTAN3")), b"STARTAN3".to_vec());
    assert_eq!(texture_name_bytes(&name("DOOR")), b"DOOR".to_vec());
    assert!(texture_name_is_blank(&name("-")));
    assert!(texture_name_is_blank(&TextureName([0; 8])));
    assert!(!texture_name_is_blank(&name("--")));
    assert_eq!(to_upper(&b"sky1_x".to_vec()), b"SKY1_X".to_vec());
    let cat = TextureCatalog { textures: vec![b"DOOR".to_vec()], flats: Vec::new() };
    assert!(resolve(&cat, &name("door")));
    assert!(resolve(&cat, &name("-")));
    assert!(!resolve(&cat, &name("DOOR2")));
}
