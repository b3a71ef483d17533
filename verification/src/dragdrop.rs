//! Pointer-to-intent resolution for dragging one tag onto another: hover
//! snapping, drop classification, the cycle guard, and the drag-session
//! state machine.
//!
//! A pointer's vertical position inside a hovered row is a ratio of the row
//! height, carried here in thousandths (`0` = top edge, [`RATIO_SCALE`] =
//! bottom edge).  The top quarter of a row means "insert before", the bottom
//! quarter "insert after", and the middle band "make it a child".

use vstd::prelude::*;

use crate::ancestry::{hits, step};
use crate::types::MoveTagArgs;

verus! {

/// Full scale of a hover ratio: the bottom edge of a row.
pub const RATIO_SCALE: u32 = 1000;

/// Below this ratio the pointer is in the row's top zone.
pub const RATIO_TOP_ZONE: u32 = 250;

/// Above this ratio the pointer is in the row's bottom zone.
pub const RATIO_BOTTOM_ZONE: u32 = 750;

/// A tag as the drag logic sees it: identity, parent link, sibling rank.
#[derive(Clone, Copy, Debug, PartialEq)]
pub struct Node {
    pub id: u32,
    pub parent_id: Option<u32>,
    pub position: i32,
}

/// The first node carrying `id`, scanning front to back; `None` when no
/// node carries it.
pub open spec fn find_node(s: Seq<Node>, id: u32) -> Option<Node>
    decreases s.len(),
{
    if s.len() == 0 {
        None
    } else if s[0].id == id {
        Some(s[0])
    } else {
        find_node(s.skip(1), id)
    }
}

/// A found node is an element of the snapshot.
pub proof fn lemma_find_node_is_elem(s: Seq<Node>, id: u32)
    requires
        find_node(s, id) is Some,
    ensures
        exists|i: int|
            0 <= i < s.len() && s[i] == find_node(s, id)->Some_0 && s[i].id == id,
    decreases s.len(),
{
    if s.len() != 0 && s[0].id != id {
        lemma_find_node_is_elem(s.skip(1), id);
        let i = choose|i: int|
            0 <= i < s.skip(1).len() && s.skip(1)[i] == find_node(s.skip(1), id)->Some_0 && s.skip(
                1,
            )[i].id == id;
        assert(s[i + 1] == s.skip(1)[i]);
    }
}

/// The parent relation induced by a snapshot: each present id maps to its
/// node's parent reference.
pub open spec fn node_pm(s: Seq<Node>) -> Map<u32, Option<u32>> {
    Map::new(
        |id: u32| find_node(s, id) is Some,
        |id: u32|
            match find_node(s, id) {
                Some(t) => t.parent_id,
                None => None,
            },
    )
}

/// A walk step over the snapshot is a lookup followed by the parent field.
pub proof fn lemma_node_pm_step(s: Seq<Node>, n: u32)
    ensures
        step(node_pm(s), n) == match find_node(s, n) {
            Some(t) => t.parent_id,
            None => None::<u32>,
        },
{
}

/// `s[j]` is the hover-snapping successor of `current`: a node under the
/// same parent with a greater position, holding the least such position,
/// and standing earliest in the snapshot among nodes with that position.
pub open spec fn is_next_sibling(s: Seq<Node>, current: Node, j: int) -> bool {
    &&& 0 <= j < s.len()
    &&& s[j].parent_id == current.parent_id
    &&& s[j].position > current.position
    &&& forall|k: int|
        0 <= k < s.len() && (#[trigger] s[k]).parent_id == current.parent_id && s[k].position
            > current.position ==> s[j].position <= s[k].position
    &&& forall|k: int|
        0 <= k < j && (#[trigger] s[k]).parent_id == current.parent_id ==> s[k].position
            != s[j].position
}

/// At most one index satisfies [`is_next_sibling`].
pub proof fn lemma_next_sibling_unique(s: Seq<Node>, current: Node, j1: int, j2: int)
    requires
        is_next_sibling(s, current, j1),
        is_next_sibling(s, current, j2),
    ensures
        j1 == j2,
{
    if j1 < j2 {
        assert(s[j1].position == s[j2].position);
    }
    if j2 < j1 {
        assert(s[j1].position == s[j2].position);
    }
}

/// The hover-resolution rule: bottom zone snaps to the next sibling's
/// before-zone when one exists; top zone snaps the ratio to `0`; everything
/// else passes through.  Ratios above full scale count as the bottom edge.
pub open spec fn hover_target_spec(s: Seq<Node>, current: Node, relative_y: u32) -> (u32, u32) {
    let p = if relative_y > RATIO_SCALE {
        RATIO_SCALE
    } else {
        relative_y
    };
    if p > RATIO_BOTTOM_ZONE {
        if exists|j: int| is_next_sibling(s, current, j) {
            let j = choose|j: int| is_next_sibling(s, current, j);
            (s[j].id, 0u32)
        } else {
            (current.id, p)
        }
    } else if p < RATIO_TOP_ZONE {
        (current.id, 0u32)
    } else {
        (current.id, p)
    }
}

/// Resolves the effective drop target and ratio for a pointer hovering
/// `current` at vertical ratio `relative_y` (in thousandths; values above
/// full scale are clamped).
///
/// Hovering the bottom zone of a node that has a next sibling snaps the
/// target to that sibling with ratio `0` — "insert before the next sibling"
/// is the same edit as "insert after the current one", and resolving both
/// to one form avoids flicker at sibling boundaries.  Hovering the bottom
/// zone of the last sibling leaves target and ratio unchanged, which the
/// classifier reads as "after".  The top zone snaps the ratio to `0`; the
/// middle band passes through.
pub fn unify_hover_target(tags: &Vec<Node>, current: Node, relative_y: u32) -> (r: (u32, u32))
    ensures
        r == hover_target_spec(tags@, current, relative_y),
{
    let pos: u32 = if relative_y > RATIO_SCALE {
        RATIO_SCALE
    } else {
        relative_y
    };
    if pos > RATIO_BOTTOM_ZONE {
        let mut best: usize = 0;
        let mut found: bool = false;
        let mut i: usize = 0;
        while i < tags.len()
            invariant
                0 <= i <= tags@.len(),
                found ==> best < i,
                found ==> tags@[best as int].parent_id == current.parent_id,
                found ==> tags@[best as int].position > current.position,
                found ==> forall|k: int|
                    0 <= k < i && (#[trigger] tags@[k]).parent_id == current.parent_id
                        && tags@[k].position > current.position ==> tags@[best as int].position
                        <= tags@[k].position,
                found ==> forall|k: int|
                    0 <= k < best && (#[trigger] tags@[k]).parent_id == current.parent_id
                        ==> tags@[k].position != tags@[best as int].position,
                !found ==> forall|k: int|
                    0 <= k < i ==> !((#[trigger] tags@[k]).parent_id == current.parent_id
                        && tags@[k].position > current.position),
            decreases tags@.len() - i,
        {
            let t = tags[i];
            if (t.parent_id == current.parent_id) && t.position > current.position {
                if !found {
                    best = i;
                    found = true;
                } else if t.position < tags[best].position {
                    best = i;
                }
            }
            i = i + 1;
        }
        if found {
            proof {
                assert(is_next_sibling(tags@, current, best as int));
                let j = choose|j: int| is_next_sibling(tags@, current, j);
                lemma_next_sibling_unique(tags@, current, best as int, j);
            }
            (tags[best].id, 0)
        } else {
            (current.id, pos)
        }
    } else if pos < RATIO_TOP_ZONE {
        (current.id, 0)
    } else {
        (current.id, pos)
    }
}

/// Looks up the first node carrying `id`.
fn find(tags: &Vec<Node>, id: u32) -> (r: Option<Node>)
    ensures
        r == find_node(tags@, id),
{
    let mut i: usize = 0;
    proof {
        assert(tags@.skip(0) =~= tags@);
    }
    while i < tags.len()
        invariant
            0 <= i <= tags@.len(),
            find_node(tags@, id) == find_node(tags@.skip(i as int), id),
        decreases tags@.len() - i,
    {
        proof {
            assert(tags@.skip(i as int)[0] == tags@[i as int]);
            assert(tags@.skip(i as int).skip(1) =~= tags@.skip(i as int + 1));
        }
        if tags[i].id == id {
            return Some(tags[i]);
        }
        i = i + 1;
    }
    proof {
        assert(tags@.skip(tags@.len() as int).len() == 0);
    }
    None
}

/// Reports whether `descendant` lies in the subtree of `ancestor` (the two
/// being equal counts), by walking parent references upward from
/// `descendant` for at most as many steps as there are nodes.  The step
/// bound makes the walk total even on a corrupted snapshot.
pub fn is_descendant(tags: &Vec<Node>, ancestor: u32, descendant: u32) -> (r: bool)
    ensures
        r == hits(node_pm(tags@), descendant, ancestor, tags@.len() as nat),
{
    let ghost pm = node_pm(tags@);
    let mut cur: u32 = descendant;
    let mut fuel: usize = tags.len();
    loop
        invariant
            pm == node_pm(tags@),
            fuel <= tags@.len(),
            hits(pm, descendant, ancestor, tags@.len() as nat) == hits(
                pm,
                cur,
                ancestor,
                fuel as nat,
            ),
        decreases fuel,
    {
        if cur == ancestor {
            return true;
        }
        proof {
            lemma_node_pm_step(tags@, cur);
        }
        match find(tags, cur) {
            None => {
                return false;
            },
            Some(t) => {
                match t.parent_id {
                    None => {
                        return false;
                    },
                    Some(p) => {
                        if fuel == 0 {
                            return false;
                        }
                        fuel = fuel - 1;
                        cur = p;
                    },
                }
            },
        }
    }
}

/// How a drop classifies, alongside the resulting placement.  `Before` and
/// `BeforeSameParent` carry identical placements; the label lets a
/// reconciler pick the cheaper same-parent shift.
#[derive(Clone, Copy, Debug, PartialEq, Eq, Structural)]
pub enum DropKind {
    Before,
    BeforeSameParent,
    After,
    AsChild,
    ToRoot,
}

/// The edit a completed drag asks for: the dragged node's new parent and
/// target position, and the classification that produced them.
#[derive(Clone, Copy, Debug, PartialEq)]
pub struct DropAction {
    pub new_parent_id: Option<u32>,
    pub new_position: i32,
    pub kind: DropKind,
}

/// The classification rule: `None` for a self-drop or a drop onto one's own
/// subtree; `ToRoot` when the target vanished from the snapshot; otherwise
/// before / after / as-child by hover zone.
pub open spec fn drop_action_spec(s: Seq<Node>, dragged_id: u32, target_id: u32, pos: u32) -> Option<
    DropAction,
> {
    if dragged_id == target_id || hits(node_pm(s), target_id, dragged_id, s.len() as nat) {
        None
    } else {
        match find_node(s, target_id) {
            None => Some(
                DropAction { new_parent_id: None, new_position: 0, kind: DropKind::ToRoot },
            ),
            Some(t) => {
                if pos < RATIO_TOP_ZONE {
                    let dragged_parent = match find_node(s, dragged_id) {
                        Some(d) => d.parent_id,
                        None => None,
                    };
                    if t.parent_id == dragged_parent {
                        Some(
                            DropAction {
                                new_parent_id: t.parent_id,
                                new_position: t.position,
                                kind: DropKind::BeforeSameParent,
                            },
                        )
                    } else {
                        Some(
                            DropAction {
                                new_parent_id: t.parent_id,
                                new_position: t.position,
                                kind: DropKind::Before,
                            },
                        )
                    }
                } else if pos > RATIO_BOTTOM_ZONE {
                    Some(
                        DropAction {
                            new_parent_id: t.parent_id,
                            new_position: (t.position + 1) as i32,
                            kind: DropKind::After,
                        },
                    )
                } else {
                    Some(
                        DropAction {
                            new_parent_id: Some(t.id),
                            new_position: 0,
                            kind: DropKind::AsChild,
                        },
                    )
                }
            },
        }
    }
}

/// Classifies a completed drag of `dragged_id` dropped on `target_id` at
/// hover ratio `pos` (in thousandths).
///
/// Dropping a node onto itself, or onto any node of its own subtree, yields
/// `None`: the gesture is silently rejected and no edit is produced.
pub fn compute_drop_action(dragged_id: u32, target_id: u32, pos: u32, tags: &Vec<Node>) -> (r:
    Option<DropAction>)
    requires
        forall|i: int| 0 <= i < tags@.len() ==> (#[trigger] tags@[i]).position < 0x7fff_ffff,
    ensures
        r == drop_action_spec(tags@, dragged_id, target_id, pos),
{
    if dragged_id == target_id || is_descendant(tags, dragged_id, target_id) {
        return None;
    }
    match find(tags, target_id) {
        None => Some(DropAction { new_parent_id: None, new_position: 0, kind: DropKind::ToRoot }),
        Some(t) => {
            if pos < RATIO_TOP_ZONE {
                let dragged_parent: Option<u32> = match find(tags, dragged_id) {
                    Some(d) => d.parent_id,
                    None => None,
                };
                if t.parent_id == dragged_parent {
                    Some(
                        DropAction {
                            new_parent_id: t.parent_id,
                            new_position: t.position,
                            kind: DropKind::BeforeSameParent,
                        },
                    )
                } else {
                    Some(
                        DropAction {
                            new_parent_id: t.parent_id,
                            new_position: t.position,
                            kind: DropKind::Before,
                        },
                    )
                }
            } else if pos > RATIO_BOTTOM_ZONE {
                proof {
                    lemma_find_node_is_elem(tags@, target_id);
                }
                Some(
                    DropAction {
                        new_parent_id: t.parent_id,
                        new_position: t.position + 1,
                        kind: DropKind::After,
                    },
                )
            } else {
                Some(
                    DropAction {
                        new_parent_id: Some(t.id),
                        new_position: 0,
                        kind: DropKind::AsChild,
                    },
                )
            }
        },
    }
}

/// The ephemeral state of one drag gesture: the node being dragged, the
/// pending effective drop target with its hover ratio, and a short-lived
/// flag raised on release to swallow the click that follows the same
/// pointer-up.  Pointer callbacks drive it through three transitions:
/// idle to dragging on press, dragging to dragging on move, dragging to
/// idle on release.
#[derive(Clone, Copy, Debug, PartialEq)]
pub struct DragSession {
    pub dragging_id: Option<u32>,
    pub drop_target_id: Option<u32>,
    pub drop_position: u32,
    pub drag_just_ended: bool,
}

impl DragSession {
    /// An idle session: nothing dragged, no pending target, ratio at the
    /// middle of the scale.
    pub fn new() -> (s: DragSession)
        ensures
            s.dragging_id is None,
            s.drop_target_id is None,
            s.drop_position == RATIO_SCALE / 2,
            !s.drag_just_ended,
    {
        DragSession {
            dragging_id: None,
            drop_target_id: None,
            drop_position: RATIO_SCALE / 2,
            drag_just_ended: false,
        }
    }

    /// Press over a node's row: starts dragging that node, unless the press
    /// was not the primary button or landed on an interactive child control.
    /// Returns whether the press was consumed (the caller then stops its
    /// propagation).
    pub fn on_mousedown(&mut self, primary_button: bool, on_form_control: bool, tag_id: u32) -> (
        consumed: bool)
        ensures
            consumed == (primary_button && !on_form_control),
            consumed ==> *final(self) == (DragSession { dragging_id: Some(tag_id), ..*old(self) }),
            !consumed ==> *final(self) == *old(self),
    {
        if primary_button && !on_form_control {
            self.dragging_id = Some(tag_id);
            true
        } else {
            false
        }
    }

    /// Pointer move over `current`'s row while a drag is active: stores the
    /// resolved effective target and ratio as the pending drop.  Without an
    /// active drag the session is untouched.
    pub fn on_mousemove(&mut self, tags: &Vec<Node>, current: Node, relative_y: u32)
        ensures
            old(self).dragging_id is Some ==> *final(self) == (DragSession {
                drop_target_id: Some(hover_target_spec(tags@, current, relative_y).0),
                drop_position: hover_target_spec(tags@, current, relative_y).1,
                ..*old(self)
            }),
            old(self).dragging_id is None ==> *final(self) == *old(self),
    {
        if self.dragging_id.is_some() {
            let (target, pos) = unify_hover_target(tags, current, relative_y);
            self.drop_target_id = Some(target);
            self.drop_position = pos;
        }
    }

    /// Clears the drag and raises the just-ended flag, whose timeout is the
    /// caller's concern.
    pub fn end_drag(&mut self)
        ensures
            *final(self) == (DragSession {
                dragging_id: None,
                drop_target_id: None,
                drag_just_ended: true,
                ..*old(self)
            }),
    {
        self.dragging_id = None;
        self.drop_target_id = None;
        self.drag_just_ended = true;
    }

    /// The just-ended flag's auto-clear, run by the caller's timer shortly
    /// after a release.
    pub fn clear_drag_just_ended(&mut self)
        ensures
            *final(self) == (DragSession { drag_just_ended: false, ..*old(self) }),
    {
        self.drag_just_ended = false;
    }

    /// Release of the pointer: classifies the pending drop and hands back
    /// the reparent/reorder command to run, or `None` when there is nothing
    /// to commit (no active drag, no pending target, a self-drop, or a drop
    /// into the dragged node's own subtree).  The session always returns to
    /// idle with the just-ended flag raised.
    pub fn on_mouseup(&mut self, tags: &Vec<Node>) -> (r: Option<MoveTagArgs>)
        requires
            forall|i: int| 0 <= i < tags@.len() ==> (#[trigger] tags@[i]).position < 0x7fff_ffff,
        ensures
            *final(self) == (DragSession {
                dragging_id: None,
                drop_target_id: None,
                drag_just_ended: true,
                ..*old(self)
            }),
            match (old(self).dragging_id, old(self).drop_target_id) {
                (Some(dragged), Some(target)) => match drop_action_spec(
                    tags@,
                    dragged,
                    target,
                    old(self).drop_position,
                ) {
                    Some(a) => r == Some(
                        (MoveTagArgs {
                            id: dragged,
                            new_parent_id: a.new_parent_id,
                            target_position: a.new_position,
                        }),
                    ),
                    None => r is None,
                },
                _ => r is None,
            },
    {
        let mut result: Option<MoveTagArgs> = None;
        if let (Some(dragged), Some(target)) = (self.dragging_id, self.drop_target_id) {
            if let Some(action) = compute_drop_action(dragged, target, self.drop_position, tags) {
                result = Some(
                    MoveTagArgs {
                        id: dragged,
                        new_parent_id: action.new_parent_id,
                        target_position: action.new_position,
                    },
                );
            }
        }
        self.end_drag();
        result
    }

    /// Whether a click arriving now belongs to a drag gesture and must be
    /// swallowed rather than treated as a selection.
    pub fn suppress_click(&self) -> (r: bool)
        ensures
            r == (self.dragging_id is Some || self.drag_just_ended),
    {
        self.dragging_id.is_some() || self.drag_just_ended
    }

    /// Whether a checkbox change may be forwarded as a selection toggle:
    /// only outside any drag and outside the just-ended window.
    pub fn allow_toggle(&self) -> (r: bool)
        ensures
            r == (self.dragging_id is None && !self.drag_just_ended),
    {
        self.dragging_id.is_none() && !self.drag_just_ended
    }
}

/// Hovering the bottom zone of a node that has a next sibling resolves to
/// that sibling with ratio zero, whatever the snapshot order.
pub proof fn lemma_hover_snaps_to_next_sibling(s: Seq<Node>, current: Node, relative_y: u32, j: int)
    requires
        relative_y > RATIO_BOTTOM_ZONE,
        is_next_sibling(s, current, j),
    ensures
        hover_target_spec(s, current, relative_y) == (s[j].id, 0u32),
{
    let w = choose|w: int| is_next_sibling(s, current, w);
    lemma_next_sibling_unique(s, current, j, w);
}

/// Hovering the bottom zone of the last sibling leaves target and ratio
/// unchanged, and a release there classifies as "after" that sibling.
pub proof fn lemma_hover_last_sibling_becomes_after(
    s: Seq<Node>,
    current: Node,
    relative_y: u32,
    dragged_id: u32,
)
    requires
        RATIO_BOTTOM_ZONE < relative_y <= RATIO_SCALE,
        forall|k: int|
            0 <= k < s.len() ==> !((#[trigger] s[k]).parent_id == current.parent_id
                && s[k].position > current.position),
        dragged_id != current.id,
        !hits(node_pm(s), current.id, dragged_id, s.len() as nat),
        find_node(s, current.id) == Some(current),
        current.position < 0x7fff_ffff,
    ensures
        hover_target_spec(s, current, relative_y) == (current.id, relative_y),
        drop_action_spec(s, dragged_id, current.id, relative_y) == Some(
            (DropAction {
                new_parent_id: current.parent_id,
                new_position: (current.position + 1) as i32,
                kind: DropKind::After,
            }),
        ),
{
    assert forall|k: int| !is_next_sibling(s, current, k) by {
        if 0 <= k < s.len() {
            assert(!(s[k].parent_id == current.parent_id && s[k].position > current.position));
        }
    }
}

/// Dropping a node onto any member of its own subtree yields no edit: the
/// gesture is rejected and the tree is left alone.
pub proof fn lemma_drop_into_own_subtree_rejected(
    s: Seq<Node>,
    dragged_id: u32,
    target_id: u32,
    pos: u32,
)
    requires
        hits(node_pm(s), target_id, dragged_id, s.len() as nat),
    ensures
        drop_action_spec(s, dragged_id, target_id, pos) is None,
{
}

/// Dropping a node onto itself yields no edit.
pub proof fn lemma_self_drop_rejected(s: Seq<Node>, dragged_id: u32, pos: u32)
    ensures
        drop_action_spec(s, dragged_id, dragged_id, pos) is None,
{
}

} // verus!
