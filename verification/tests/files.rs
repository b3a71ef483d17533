use tagme::files::get_files_by_tags;
use tagme::types::FileInfo;

fn file(id: u32, path: &str) -> FileInfo {
    FileInfo {
        id,
        path: path.to_string(),
        content_hash: "h".to_string(),
        size_bytes: 1,
        last_modified: 1,
        is_directory: false,
    }
}

fn ids(files: &[FileInfo]) -> Vec<u32> {
    files.iter().map(|f| f.id).collect()
}

fn setup() -> (Vec<FileInfo>, Vec<(u32, u32)>) {
    let files = vec![file(1, "a"), file(2, "b"), file(3, "c")];
    // File 1 carries tags 7 and 8; file 2 carries tag 7; file 3 carries none.
    let pairs = vec![(1, 7), (1, 8), (2, 7)];
    (files, pairs)
}

#[test]
fn empty_selection_keeps_every_file() {
    let (files, pairs) = setup();
    let r = get_files_by_tags(&files, &pairs, &vec![], true);
    assert_eq!(ids(&r), vec![1, 2, 3]);
    let r = get_files_by_tags(&files, &pairs, &vec![], false);
    assert_eq!(ids(&r), vec![1, 2, 3]);
}

#[test]
fn intersective_filtering_asks_for_every_tag() {
    let (files, pairs) = setup();
    let r = get_files_by_tags(&files, &pairs, &vec![7, 8], true);
    assert_eq!(ids(&r), vec![1]);
    let r = get_files_by_tags(&files, &pairs, &vec![7], true);
    assert_eq!(ids(&r), vec![1, 2]);
}

#[test]
fn union_filtering_asks_for_any_tag() {
    let (files, pairs) = setup();
    let r = get_files_by_tags(&files, &pairs, &vec![7, 8], false);
    assert_eq!(ids(&r), vec![1, 2]);
    let r = get_files_by_tags(&files, &pairs, &vec![8], false);
    assert_eq!(ids(&r), vec![1]);
}

#[test]
fn a_tag_nobody_carries_matches_nothing() {
    let (files, pairs) = setup();
    let r = get_files_by_tags(&files, &pairs, &vec![99], false);
    assert!(r.is_empty());
    let r = get_files_by_tags(&files, &pairs, &vec![99], true);
    assert!(r.is_empty());
}
