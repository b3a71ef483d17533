use tagme::selection::{collect_subtree, remove_subtree_from_selection, toggle_tag_selection};
use tagme::types::TagInfo;

fn tag(id: u32, parent_id: Option<u32>, position: i32) -> TagInfo {
    TagInfo { id, name: format!("t{}", id), parent_id, color: None, position }
}

/// 1 has children 2 and 3; 2 has child 4.  9 is an unrelated root.
fn family() -> Vec<TagInfo> {
    vec![
        tag(1, None, 0),
        tag(9, None, 1),
        tag(2, Some(1), 0),
        tag(3, Some(1), 1),
        tag(4, Some(2), 0),
    ]
}

fn sorted(mut v: Vec<u32>) -> Vec<u32> {
    v.sort();
    v
}

#[test]
fn subtree_holds_self_and_all_descendants() {
    let tags = family();
    assert_eq!(sorted(collect_subtree(&tags, 1)), vec![1, 2, 3, 4]);
    assert_eq!(sorted(collect_subtree(&tags, 2)), vec![2, 4]);
    assert_eq!(sorted(collect_subtree(&tags, 4)), vec![4]);
    assert_eq!(sorted(collect_subtree(&tags, 9)), vec![9]);
}

#[test]
fn selecting_a_parent_selects_the_whole_subtree() {
    let tags = family();
    let (sel, force) = toggle_tag_selection(&vec![], &tags, 1);
    assert_eq!(sorted(sel), vec![1, 2, 3, 4]);
    assert!(force);
}

#[test]
fn deselecting_removes_exactly_the_subtree() {
    let tags = family();
    let (sel, force) = toggle_tag_selection(&vec![9, 1, 2, 3, 4], &tags, 1);
    assert_eq!(sel, vec![9]);
    assert!(!force);
    assert!(!force);
}

#[test]
fn unrelated_selections_survive_a_toggle() {
    let tags = family();
    let (sel, force) = toggle_tag_selection(&vec![9], &tags, 2);
    assert_eq!(sel, vec![9, 2, 4]);
    assert!(force);
    let (sel2, force2) = toggle_tag_selection(&sel, &tags, 2);
    assert_eq!(sel2, vec![9]);
    assert!(!force2);
}

#[test]
fn selecting_a_leaf_does_not_force_loosening() {
    let tags = family();
    let (sel, force) = toggle_tag_selection(&vec![], &tags, 4);
    assert_eq!(sel, vec![4]);
    assert!(!force);
}

#[test]
fn selecting_a_node_with_one_descendant_forces_loosening() {
    let tags = family();
    let (sel, force) = toggle_tag_selection(&vec![], &tags, 2);
    assert_eq!(sorted(sel), vec![2, 4]);
    assert!(force);
}

#[test]
fn toggle_keeps_existing_order_and_appends() {
    let tags = family();
    let (sel, _) = toggle_tag_selection(&vec![9, 3], &tags, 2);
    assert_eq!(&sel[0..2], &[9, 3]);
    assert_eq!(sorted(sel), vec![2, 3, 4, 9]);
}

#[test]
fn toggling_against_an_empty_snapshot_selects_just_the_id() {
    let tags: Vec<TagInfo> = vec![];
    let (sel, force) = toggle_tag_selection(&vec![], &tags, 5);
    assert_eq!(sel, vec![5]);
    assert!(!force);
}

#[test]
fn deletion_cleanup_drops_the_subtree_from_the_selection() {
    let tags = family();
    let sel = remove_subtree_from_selection(&vec![9, 4, 3, 2], &tags, 2);
    assert_eq!(sel, vec![9, 3]);
    // Removing a subtree that is not selected changes nothing.
    let sel2 = remove_subtree_from_selection(&vec![9], &tags, 1);
    assert_eq!(sel2, vec![9]);
}
