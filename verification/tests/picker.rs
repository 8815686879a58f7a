// Picker filters.

use doombuilder::picker::{
    contains_text, entries_matching, entry_matches, map_names_matching, texture_names_matching, PickerEntry,
};

fn chars(s: &str) -> Vec<char> {
    s.chars().collect()
}

fn entry(id: u16, title: &str, category: &str) -> PickerEntry {
    PickerEntry { id, title: chars(title), category: chars(category) }
}

#[test]
fn substring_search() {
    assert!(contains_text(&chars("STARTAN3"), &chars("TAN")));
    assert!(contains_text(&chars("STARTAN3"), &chars("")));
    assert!(contains_text(&chars("ab"), &chars("ab")));
    assert!(!contains_text(&chars("ab"), &chars("abc")));
    assert!(!contains_text(&chars("STARTAN3"), &chars("tan")));
}

#[test]
fn texture_filter_is_upper_cased() {
    let names = vec![chars("BROWN1"), chars("STARTAN3"), chars("STARG2"), chars("FLAT1")];
    assert_eq!(texture_names_matching(&names, &chars("star")), vec![1, 2]);
    assert_eq!(texture_names_matching(&names, &chars("")), vec![0, 1, 2, 3]);
    assert_eq!(texture_names_matching(&names, &chars("zzz")), Vec::<usize>::new());
}

#[test]
fn map_filter_ignores_case() {
    let maps = vec![chars("E1M1"), chars("MAP01"), chars("map02")];
    assert_eq!(map_names_matching(&maps, &chars("Map")), vec![1, 2]);
    assert_eq!(map_names_matching(&maps, &chars("e1")), vec![0]);
}

#[test]
fn entries_match_title_category_or_number() {
    let door = entry(26, "DR Door (Blue) Open Wait Close", "Door");
    assert!(entry_matches(&door, &chars("blue")));
    assert!(entry_matches(&door, &chars("DOOR")));
    assert!(entry_matches(&door, &chars("26")));
    assert!(entry_matches(&door, &chars("6")));
    assert!(entry_matches(&door, &chars("")));
    assert!(!entry_matches(&door, &chars("lift")));
    assert!(!entry_matches(&door, &chars("27")));
}

#[test]
fn entries_are_listed_by_number() {
    let entries = vec![
        entry(62, "SR Lift Lower Wait Raise", "Lift"),
        entry(1, "DR Door Open Wait Close", "Door"),
        entry(26, "DR Door (Blue)", "Door"),
        entry(1, "Duplicate number", "Door"),
    ];
    assert_eq!(entries_matching(&entries, &chars("")), vec![1, 3, 2, 0]);
    assert_eq!(entries_matching(&entries, &chars("door")), vec![1, 3, 2]);
    assert_eq!(entries_matching(&entries, &chars("lift")), vec![0]);
    assert_eq!(entries_matching(&entries, &chars("x")), Vec::<usize>::new());
}
