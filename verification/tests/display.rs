use std::collections::HashMap;

use tagme::display::{build_display_files, sort_display_files};
use tagme::types::{DisplayFile, FileInfo, FileListItem, SortColumn, SortDirection, TagInfo};

fn file(id: u32, path: &str, size: u64, mtime: i64) -> FileInfo {
    FileInfo {
        id,
        path: path.to_string(),
        content_hash: "h".to_string(),
        size_bytes: size,
        last_modified: mtime,
        is_directory: false,
    }
}

fn item(path: &str, size: u64, mtime: i64) -> FileListItem {
    FileListItem { path: path.to_string(), size_bytes: size, last_modified: mtime, is_directory: false }
}

fn tag(id: u32, name: &str) -> TagInfo {
    TagInfo { id, name: name.to_string(), parent_id: None, color: None, position: 0 }
}

fn row(path: &str, size: u64, mtime: i64) -> DisplayFile {
    DisplayFile {
        path: path.to_string(),
        name: String::new(),
        extension: String::new(),
        size_bytes: size,
        last_modified: mtime,
        db_id: None,
        tags: Vec::new(),
        is_directory: false,
    }
}

#[test]
fn rows_split_name_and_extension_out_of_the_path() {
    let db = vec![file(1, "dir/report.txt", 10, 100)];
    let rows = build_display_files(&vec![], &db, &HashMap::new(), &vec![]);
    assert_eq!(rows.len(), 1);
    assert_eq!(rows[0].name, "report.txt");
    assert_eq!(rows[0].extension, "txt");
    assert_eq!(rows[0].path, "dir/report.txt");
    assert_eq!(rows[0].db_id, Some(1));
    assert!(rows[0].tags.is_empty());
}

#[test]
fn rows_carry_the_tags_of_their_record() {
    let db = vec![file(1, "a.txt", 10, 100), file(2, "b.txt", 20, 200)];
    let mut map: HashMap<u32, Vec<TagInfo>> = HashMap::new();
    map.insert(2, vec![tag(7, "work")]);
    let rows = build_display_files(&vec![], &db, &map, &vec![]);
    assert!(rows[0].tags.is_empty());
    assert_eq!(rows[1].tags, vec![tag(7, "work")]);
}

#[test]
fn fresh_scan_entries_follow_the_database_rows() {
    let db = vec![file(1, "dir/a.txt", 10, 100)];
    let scanned = vec![item("dir/a.txt", 10, 100), item("dir/new.md", 5, 50)];
    let rows = build_display_files(&scanned, &db, &HashMap::new(), &vec![]);
    assert_eq!(rows.len(), 2);
    assert_eq!(rows[0].path, "dir/a.txt");
    assert_eq!(rows[1].path, "dir/new.md");
    assert_eq!(rows[1].name, "new.md");
    assert_eq!(rows[1].extension, "md");
    assert_eq!(rows[1].db_id, None);
}

#[test]
fn an_active_tag_filter_hides_scan_entries() {
    let db = vec![file(1, "dir/a.txt", 10, 100)];
    let scanned = vec![item("dir/new.md", 5, 50)];
    let rows = build_display_files(&scanned, &db, &HashMap::new(), &vec![7]);
    assert_eq!(rows.len(), 1);
    assert_eq!(rows[0].path, "dir/a.txt");
}

#[test]
fn empty_inputs_build_an_empty_list() {
    let rows = build_display_files(&vec![], &vec![], &HashMap::new(), &vec![]);
    assert!(rows.is_empty());
    let sorted = sort_display_files(vec![], SortColumn::Name, SortDirection::Asc);
    assert!(sorted.is_empty());
}

fn named(name: &str, ext: &str, size: u64, mtime: i64) -> DisplayFile {
    let mut d = row("p", size, mtime);
    d.name = name.to_string();
    d.extension = ext.to_string();
    d
}

fn names(rows: &[DisplayFile]) -> Vec<String> {
    rows.iter().map(|d| d.name.clone()).collect()
}

#[test]
fn name_sort_ignores_case() {
    // Case-sensitively 'B' (0x42) would come before 'a' (0x61).
    let rows = vec![named("B.txt", "txt", 1, 1), named("a.txt", "txt", 2, 2)];
    let sorted = sort_display_files(rows, SortColumn::Name, SortDirection::Asc);
    assert_eq!(names(&sorted), vec!["a.txt", "B.txt"]);
}

#[test]
fn name_sort_descends_when_asked() {
    let rows = vec![
        named("a", "", 1, 1),
        named("c", "", 2, 2),
        named("b", "", 3, 3),
    ];
    let sorted = sort_display_files(rows, SortColumn::Name, SortDirection::Desc);
    assert_eq!(names(&sorted), vec!["c", "b", "a"]);
}

#[test]
fn size_sort_is_numeric() {
    let rows = vec![
        named("a", "", 100, 1),
        named("b", "", 2, 2),
        named("c", "", 30, 3),
    ];
    let sorted = sort_display_files(rows, SortColumn::Size, SortDirection::Asc);
    assert_eq!(names(&sorted), vec!["b", "c", "a"]);
}

#[test]
fn date_sort_descending_shows_newest_first() {
    let rows = vec![
        named("old", "", 1, 100),
        named("new", "", 2, 300),
        named("mid", "", 3, 200),
    ];
    let sorted = sort_display_files(rows, SortColumn::Date, SortDirection::Desc);
    assert_eq!(names(&sorted), vec!["new", "mid", "old"]);
}

#[test]
fn type_sort_compares_extensions_case_insensitively() {
    let rows = vec![
        named("a", "TXT", 1, 1),
        named("b", "md", 2, 2),
        named("c", "rs", 3, 3),
    ];
    let sorted = sort_display_files(rows, SortColumn::Type, SortDirection::Asc);
    assert_eq!(names(&sorted), vec!["b", "c", "a"]);
}

#[test]
fn sorting_keeps_every_row() {
    let rows = vec![
        named("x", "", 5, 1),
        named("y", "", 5, 2),
        named("x", "", 5, 3),
    ];
    let sorted = sort_display_files(rows.clone(), SortColumn::Size, SortDirection::Asc);
    assert_eq!(sorted.len(), 3);
    for r in &rows {
        assert!(sorted.iter().any(|s| s.name == r.name && s.last_modified == r.last_modified));
    }
}
