use tagme::dragdrop::{
    compute_drop_action, is_descendant, unify_hover_target, DragSession, DropKind, Node,
};

fn node(id: u32, parent_id: Option<u32>, position: i32) -> Node {
    Node { id, parent_id, position }
}

/// Three siblings at the root level, in scrambled snapshot order.
fn siblings() -> Vec<Node> {
    vec![node(3, None, 2), node(1, None, 0), node(2, None, 1)]
}

/// A chain: 1 -> 2 -> 3 (3 is a grandchild of 1).
fn chain() -> Vec<Node> {
    vec![node(1, None, 0), node(2, Some(1), 0), node(3, Some(2), 0)]
}

#[test]
fn hover_bottom_zone_snaps_to_next_sibling() {
    let tags = siblings();
    let (target, ratio) = unify_hover_target(&tags, node(2, None, 1), 900);
    assert_eq!(target, 3);
    assert_eq!(ratio, 0);
}

#[test]
fn hover_bottom_zone_on_last_sibling_stays_put() {
    let tags = siblings();
    let (target, ratio) = unify_hover_target(&tags, node(3, None, 2), 900);
    assert_eq!(target, 3);
    assert_eq!(ratio, 900);
}

#[test]
fn hover_top_zone_snaps_ratio_to_zero() {
    let tags = siblings();
    let (target, ratio) = unify_hover_target(&tags, node(2, None, 1), 100);
    assert_eq!(target, 2);
    assert_eq!(ratio, 0);
}

#[test]
fn hover_middle_band_passes_through() {
    let tags = siblings();
    let (target, ratio) = unify_hover_target(&tags, node(2, None, 1), 500);
    assert_eq!(target, 2);
    assert_eq!(ratio, 500);
}

#[test]
fn hover_ratio_above_scale_counts_as_bottom() {
    let tags = siblings();
    let (target, ratio) = unify_hover_target(&tags, node(2, None, 1), 5000);
    assert_eq!(target, 3);
    assert_eq!(ratio, 0);
}

#[test]
fn hover_snaps_to_nearest_greater_position() {
    // Sibling at position 2 is nearer to position 0 than the one at 5.
    let tags = vec![node(9, None, 5), node(7, None, 0), node(8, None, 2)];
    let (target, ratio) = unify_hover_target(&tags, node(7, None, 0), 800);
    assert_eq!(target, 8);
    assert_eq!(ratio, 0);
}

#[test]
fn descendant_walk_finds_grandchild() {
    let tags = chain();
    assert!(is_descendant(&tags, 1, 3));
    assert!(is_descendant(&tags, 1, 2));
    assert!(is_descendant(&tags, 1, 1));
    assert!(!is_descendant(&tags, 3, 1));
    assert!(!is_descendant(&tags, 2, 1));
}

#[test]
fn self_drop_is_rejected() {
    let tags = siblings();
    assert!(compute_drop_action(1, 1, 500, &tags).is_none());
}

#[test]
fn drop_onto_own_subtree_is_rejected() {
    let tags = chain();
    assert!(compute_drop_action(1, 2, 500, &tags).is_none());
    assert!(compute_drop_action(1, 3, 500, &tags).is_none());
    assert!(compute_drop_action(1, 3, 100, &tags).is_none());
    assert!(compute_drop_action(1, 3, 900, &tags).is_none());
}

#[test]
fn drop_before_same_parent() {
    let tags = siblings();
    let a = compute_drop_action(1, 2, 100, &tags).unwrap();
    assert_eq!(a.new_parent_id, None);
    assert_eq!(a.new_position, 1);
    assert_eq!(a.kind, DropKind::BeforeSameParent);
}

#[test]
fn drop_before_other_parent() {
    let mut tags = chain();
    tags.push(node(4, Some(1), 1));
    // Dragging 4 (child of 1) before 3 (child of 2).
    let a = compute_drop_action(4, 3, 100, &tags).unwrap();
    assert_eq!(a.new_parent_id, Some(2));
    assert_eq!(a.new_position, 0);
    assert_eq!(a.kind, DropKind::Before);
}

#[test]
fn drop_after_last_sibling() {
    let tags = siblings();
    let a = compute_drop_action(1, 3, 900, &tags).unwrap();
    assert_eq!(a.new_parent_id, None);
    assert_eq!(a.new_position, 3);
    assert_eq!(a.kind, DropKind::After);
}

#[test]
fn drop_middle_band_makes_child() {
    let tags = siblings();
    let a = compute_drop_action(1, 2, 500, &tags).unwrap();
    assert_eq!(a.new_parent_id, Some(2));
    assert_eq!(a.new_position, 0);
    assert_eq!(a.kind, DropKind::AsChild);
}

#[test]
fn drop_on_vanished_target_falls_back_to_root() {
    let tags = siblings();
    let a = compute_drop_action(1, 77, 500, &tags).unwrap();
    assert_eq!(a.new_parent_id, None);
    assert_eq!(a.new_position, 0);
    assert_eq!(a.kind, DropKind::ToRoot);
}

#[test]
fn session_full_gesture_produces_move_request() {
    let tags = siblings();
    let mut s = DragSession::new();
    assert!(s.dragging_id.is_none());
    assert_eq!(s.drop_position, 500);

    let consumed = s.on_mousedown(true, false, 1);
    assert!(consumed);
    assert_eq!(s.dragging_id, Some(1));

    s.on_mousemove(&tags, node(2, None, 1), 900);
    assert_eq!(s.drop_target_id, Some(3));
    assert_eq!(s.drop_position, 0);

    let req = s.on_mouseup(&tags).unwrap();
    assert_eq!(req.id, 1);
    assert_eq!(req.new_parent_id, None);
    assert_eq!(req.target_position, 2);

    assert!(s.dragging_id.is_none());
    assert!(s.drop_target_id.is_none());
    assert!(s.drag_just_ended);
}

#[test]
fn session_secondary_button_does_not_start_a_drag() {
    let mut s = DragSession::new();
    assert!(!s.on_mousedown(false, false, 1));
    assert!(!s.on_mousedown(true, true, 1));
    assert!(s.dragging_id.is_none());
}

#[test]
fn session_move_without_drag_changes_nothing() {
    let tags = siblings();
    let mut s = DragSession::new();
    s.on_mousemove(&tags, node(2, None, 1), 900);
    assert!(s.drop_target_id.is_none());
    assert_eq!(s.drop_position, 500);
}

#[test]
fn session_release_without_target_commits_nothing() {
    let tags = siblings();
    let mut s = DragSession::new();
    s.on_mousedown(true, false, 1);
    assert!(s.on_mouseup(&tags).is_none());
    assert!(s.drag_just_ended);
}

#[test]
fn session_release_on_own_subtree_commits_nothing() {
    let tags = chain();
    let mut s = DragSession::new();
    s.on_mousedown(true, false, 1);
    s.on_mousemove(&tags, node(3, Some(2), 0), 500);
    assert!(s.on_mouseup(&tags).is_none());
}

#[test]
fn session_click_guards_follow_drag_state() {
    let mut s = DragSession::new();
    assert!(!s.suppress_click());
    assert!(s.allow_toggle());
    s.on_mousedown(true, false, 1);
    assert!(s.suppress_click());
    assert!(!s.allow_toggle());
    s.end_drag();
    assert!(s.suppress_click());
    assert!(!s.allow_toggle());
    s.clear_drag_just_ended();
    assert!(!s.suppress_click());
    assert!(s.allow_toggle());
}
