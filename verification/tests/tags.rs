use std::collections::HashMap;

use tagme::tags::{create_tag, move_tag, move_tag_checked, order_tags, update_tag};
use tagme::types::TagInfo;

fn tag(id: u32, name: &str, parent_id: Option<u32>, position: i32) -> TagInfo {
    TagInfo { id, name: name.to_string(), parent_id, color: None, position }
}

/// Positions within every sibling group must be exactly 0..count-1.
fn assert_dense(tags: &[TagInfo]) {
    let mut groups: HashMap<Option<u32>, Vec<i32>> = HashMap::new();
    for t in tags {
        groups.entry(t.parent_id).or_default().push(t.position);
    }
    for (parent, mut positions) in groups {
        positions.sort();
        for (want, got) in positions.iter().enumerate() {
            assert_eq!(
                *got, want as i32,
                "positions not dense under parent {:?}",
                parent
            );
        }
    }
}

/// Walking parent references from every node must end at a root within
/// as many steps as there are nodes.
fn assert_acyclic(tags: &[TagInfo]) {
    for t in tags {
        let mut cur = Some(t.id);
        let mut steps = 0;
        while let Some(c) = cur {
            assert!(steps <= tags.len(), "parent walk from {} does not end", t.id);
            cur = tags.iter().find(|x| x.id == c).and_then(|x| x.parent_id);
            steps += 1;
        }
    }
}

fn position_of(tags: &[TagInfo], id: u32) -> (Option<u32>, i32) {
    let t = tags.iter().find(|t| t.id == id).unwrap();
    (t.parent_id, t.position)
}

/// Two root parents; P(10) has children 1,2,3 and Q(20) has children 4,5.
fn two_families() -> Vec<TagInfo> {
    vec![
        tag(10, "p", None, 0),
        tag(20, "q", None, 1),
        tag(1, "a", Some(10), 0),
        tag(2, "b", Some(10), 1),
        tag(3, "c", Some(10), 2),
        tag(4, "d", Some(20), 0),
        tag(5, "e", Some(20), 1),
    ]
}

#[test]
fn cross_parent_move_reindexes_both_groups() {
    let mut tags = two_families();
    move_tag(&mut tags, 2, Some(20), 1);
    assert_eq!(position_of(&tags, 1), (Some(10), 0));
    assert_eq!(position_of(&tags, 3), (Some(10), 1));
    assert_eq!(position_of(&tags, 4), (Some(20), 0));
    assert_eq!(position_of(&tags, 2), (Some(20), 1));
    assert_eq!(position_of(&tags, 5), (Some(20), 2));
    assert_dense(&tags);
    assert_acyclic(&tags);
}

#[test]
fn same_parent_move_forward_shifts_between() {
    let mut tags = two_families();
    move_tag(&mut tags, 1, Some(10), 2);
    assert_eq!(position_of(&tags, 2), (Some(10), 0));
    assert_eq!(position_of(&tags, 3), (Some(10), 1));
    assert_eq!(position_of(&tags, 1), (Some(10), 2));
    assert_dense(&tags);
}

#[test]
fn same_parent_move_backward_shifts_between() {
    let mut tags = two_families();
    move_tag(&mut tags, 3, Some(10), 0);
    assert_eq!(position_of(&tags, 3), (Some(10), 0));
    assert_eq!(position_of(&tags, 1), (Some(10), 1));
    assert_eq!(position_of(&tags, 2), (Some(10), 2));
    assert_dense(&tags);
}

#[test]
fn same_parent_move_past_end_lands_on_last_slot() {
    // "After" on the last sibling hands position 3 to a group of three.
    let mut tags = two_families();
    move_tag(&mut tags, 1, Some(10), 3);
    assert_eq!(position_of(&tags, 2), (Some(10), 0));
    assert_eq!(position_of(&tags, 3), (Some(10), 1));
    assert_eq!(position_of(&tags, 1), (Some(10), 2));
    assert_dense(&tags);
}

#[test]
fn move_to_root_at_position_zero_shifts_roots_up() {
    let mut tags = two_families();
    move_tag(&mut tags, 2, None, 0);
    assert_eq!(position_of(&tags, 2), (None, 0));
    assert_eq!(position_of(&tags, 10), (None, 1));
    assert_eq!(position_of(&tags, 20), (None, 2));
    assert_eq!(position_of(&tags, 1), (Some(10), 0));
    assert_eq!(position_of(&tags, 3), (Some(10), 1));
    assert_dense(&tags);
    assert_acyclic(&tags);
}

#[test]
fn moving_a_parent_under_another_keeps_its_children() {
    let mut tags = two_families();
    move_tag(&mut tags, 10, Some(20), 0);
    assert_eq!(position_of(&tags, 10), (Some(20), 0));
    assert_eq!(position_of(&tags, 4), (Some(20), 1));
    assert_eq!(position_of(&tags, 5), (Some(20), 2));
    assert_eq!(position_of(&tags, 20), (None, 0));
    assert_eq!(position_of(&tags, 1), (Some(10), 0));
    assert_dense(&tags);
    assert_acyclic(&tags);
}

#[test]
fn any_sequence_of_moves_keeps_the_invariants() {
    let mut tags = two_families();
    let moves: [(u32, Option<u32>, i32); 6] = [
        (2, Some(20), 1),
        (10, Some(20), 0),
        (3, None, 0),
        (1, Some(3), 0),
        (5, Some(10), 0),
        (20, None, 1),
    ];
    for (id, parent, pos) in moves {
        assert!(move_tag_checked(&mut tags, id, parent, pos));
        assert_dense(&tags);
        assert_acyclic(&tags);
    }
}

#[test]
fn checked_move_rejects_a_cycle_and_leaves_the_tree_alone() {
    let mut tags = two_families();
    let before = tags.clone();
    // 1 is a child of 10: moving 10 under 1 would close a cycle.
    assert!(!move_tag_checked(&mut tags, 10, Some(1), 0));
    assert_eq!(tags, before);
    // Moving 10 under itself as well.
    assert!(!move_tag_checked(&mut tags, 10, Some(10), 0));
    assert_eq!(tags, before);
}

#[test]
fn checked_move_rejects_unknown_ids_and_negative_positions() {
    let mut tags = two_families();
    let before = tags.clone();
    assert!(!move_tag_checked(&mut tags, 99, None, 0));
    assert_eq!(tags, before);
    assert!(!move_tag_checked(&mut tags, 1, Some(99), 0));
    assert_eq!(tags, before);
    assert!(!move_tag_checked(&mut tags, 1, None, -1));
    assert_eq!(tags, before);
}

#[test]
fn created_tag_is_appended_after_its_siblings() {
    let mut tags = two_families();
    let pos = create_tag(&mut tags, 6, "f".to_string(), Some(10), Some("#abc".to_string()));
    assert_eq!(pos, 3);
    assert_eq!(position_of(&tags, 6), (Some(10), 3));
    let root_pos = create_tag(&mut tags, 7, "g".to_string(), None, None);
    assert_eq!(root_pos, 2);
    assert_dense(&tags);
    assert_acyclic(&tags);
}

#[test]
fn created_tag_under_a_childless_parent_starts_at_zero() {
    let mut tags = vec![tag(1, "root", None, 0)];
    let pos = create_tag(&mut tags, 2, "child".to_string(), Some(1), None);
    assert_eq!(pos, 0);
    assert_dense(&tags);
}

#[test]
fn update_tag_touches_name_and_color_only() {
    let mut tags = two_families();
    assert!(update_tag(&mut tags, 2, "renamed".to_string(), Some("#fff".to_string())));
    let t = tags.iter().find(|t| t.id == 2).unwrap();
    assert_eq!(t.name, "renamed");
    assert_eq!(t.color, Some("#fff".to_string()));
    assert_eq!(t.parent_id, Some(10));
    assert_eq!(t.position, 1);
    assert_dense(&tags);
}

#[test]
fn update_tag_reports_a_missing_record() {
    let mut tags = two_families();
    let before = tags.clone();
    assert!(!update_tag(&mut tags, 99, "x".to_string(), None));
    assert_eq!(tags, before);
}

#[test]
fn moving_a_node_onto_its_own_slot_changes_nothing() {
    let mut tags = two_families();
    let before = tags.clone();
    move_tag(&mut tags, 2, Some(10), 1);
    assert_eq!(tags, before);
}

#[test]
fn order_tags_sorts_by_parent_then_position() {
    let tags = vec![
        tag(5, "e", Some(20), 1),
        tag(3, "c", Some(10), 1),
        tag(20, "q", None, 1),
        tag(10, "p", None, 0),
        tag(4, "d", Some(20), 0),
        tag(2, "b", Some(10), 0),
    ];
    let sorted = order_tags(tags);
    let ids: Vec<u32> = sorted.iter().map(|t| t.id).collect();
    assert_eq!(ids, vec![10, 20, 2, 3, 4, 5]);
}
