//! Subtree-aware selection propagation: toggling a tag selects or
//! deselects the tag together with all of its descendants, and reports
//! when the consuming filter should loosen its combination mode.

use vstd::prelude::*;

use crate::tags::{
    first_idx, has_tag, ids_distinct, in_subtree, in_subtree_spec, lemma_first_idx_props,
};
use crate::types::TagInfo;

verus! {

/// The ids a toggle of `root` acts on: `root` itself and every record of
/// its subtree.
pub open spec fn subtree_ids(s: Seq<TagInfo>, root: u32) -> Set<u32> {
    Set::new(|x: u32| x == root || (has_tag(s, x) && in_subtree_spec(s, root, x)))
}

/// Whether `x` is a selected id.
fn contains_id(v: &Vec<u32>, x: u32) -> (r: bool)
    ensures
        r == v@.contains(x),
{
    let mut i: usize = 0;
    while i < v.len()
        invariant
            0 <= i <= v@.len(),
            forall|k: int| 0 <= k < i ==> v@[k] != x,
        decreases v@.len() - i,
    {
        if v[i] == x {
            return true;
        }
        i = i + 1;
    }
    false
}

/// Collects `root` and all its descendants, `root` first, each id once.
/// The result's length is the subtree's size.
pub fn collect_subtree(tags: &Vec<TagInfo>, root: u32) -> (r: Vec<u32>)
    requires
        ids_distinct(tags@),
    ensures
        r@.to_set() == subtree_ids(tags@, root),
        r@.no_duplicates(),
        r@.len() == subtree_ids(tags@, root).len(),
        r@.len() >= 1,
{
    let mut r: Vec<u32> = Vec::new();
    r.push(root);
    let mut i: usize = 0;
    while i < tags.len()
        invariant
            0 <= i <= tags@.len(),
            ids_distinct(tags@),
            r@.len() >= 1,
            r@[0] == root,
            r@.no_duplicates(),
            forall|x: u32|
                r@.contains(x) ==> x == root || (has_tag(tags@, x) && in_subtree_spec(
                    tags@,
                    root,
                    x,
                )),
            forall|x: u32|
                #[trigger] r@.contains(x) && x != root ==> exists|j: int|
                    0 <= j < i && (#[trigger] tags@[j]).id == x,
            forall|j: int|
                0 <= j < i && (#[trigger] tags@[j]).id != root && in_subtree_spec(
                    tags@,
                    root,
                    tags@[j].id,
                ) ==> r@.contains(tags@[j].id),
        decreases tags@.len() - i,
    {
        let tid = tags[i].id;
        if tid != root && in_subtree(tags, root, tid) {
            proof {
                if r@.contains(tid) {
                    let j = choose|j: int| 0 <= j < i && (#[trigger] tags@[j]).id == tid;
                    assert(tags@[j].id == tags@[i as int].id);
                    assert(false);
                }
                lemma_first_idx_props(tags@, tid);
                if first_idx(tags@, tid) < 0 {
                    assert(tags@[i as int].id != tid);
                }
            }
            let ghost rold = r@;
            r.push(tid);
            proof {
                assert(r@.drop_last() =~= rold);
                assert forall|x: u32| #[trigger] r@.contains(x) implies rold.contains(x) || x
                    == tid by {
                    let j = choose|j: int| 0 <= j < r@.len() && r@[j] == x;
                    if j < rold.len() {
                        assert(rold[j] == x);
                    }
                }
                assert(forall|x: u32| rold.contains(x) ==> #[trigger] r@.contains(x)) by {
                    assert(forall|j: int| 0 <= j < rold.len() ==> r@[j] == rold[j]);
                }
                assert(r@.contains(tid)) by {
                    assert(r@[r@.len() - 1] == tid);
                }
            }
        }
        i = i + 1;
    }
    proof {
        assert forall|x: u32| subtree_ids(tags@, root).contains(x) implies r@.contains(x) by {
            if x == root {
                assert(r@[0] == root);
            } else {
                lemma_first_idx_props(tags@, x);
                let j = first_idx(tags@, x);
                assert(tags@[j].id == x);
            }
        }
        assert(r@.to_set() =~= subtree_ids(tags@, root));
        r@.unique_seq_to_set();
    }
    r
}

/// Removes `tag_id`'s whole subtree from a selection, keeping the order of
/// what stays.  This is the cleanup run when a tag is deleted, and the
/// deselection half of a toggle.
pub fn remove_subtree_from_selection(
    selected: &Vec<u32>,
    tags: &Vec<TagInfo>,
    tag_id: u32,
) -> (r: Vec<u32>)
    requires
        ids_distinct(tags@),
    ensures
        r@ == selected@.filter(|x: u32| !subtree_ids(tags@, tag_id).contains(x)),
{
    proof {
        reveal(Seq::filter);
    }
    let ghost pred = |x: u32| !subtree_ids(tags@, tag_id).contains(x);
    let sub = collect_subtree(tags, tag_id);
    let mut r: Vec<u32> = Vec::new();
    let mut i: usize = 0;
    proof {
        assert(selected@.subrange(0, 0).filter(pred) =~= Seq::<u32>::empty());
    }
    while i < selected.len()
        invariant
            0 <= i <= selected@.len(),
            sub@.to_set() == subtree_ids(tags@, tag_id),
            pred == (|x: u32| !subtree_ids(tags@, tag_id).contains(x)),
            r@ == selected@.subrange(0, i as int).filter(pred),
        decreases selected@.len() - i,
    {
        proof {
            reveal(Seq::filter);
            assert(selected@.subrange(0, i as int + 1).drop_last() =~= selected@.subrange(
                0,
                i as int,
            ));
            assert(selected@.subrange(0, i as int + 1).last() == selected@[i as int]);
        }
        let x = selected[i];
        if !contains_id(&sub, x) {
            proof {
                assert(!sub@.to_set().contains(x));
            }
            r.push(x);
        } else {
            proof {
                assert(sub@.to_set().contains(x));
            }
        }
        i = i + 1;
    }
    proof {
        assert(selected@.subrange(0, selected@.len() as int) =~= selected@);
    }
    r
}

/// Toggles `tag_id` in a selection, propagating over its whole subtree.
///
/// Selecting (the tag was not selected) unions the subtree's ids into the
/// selection, keeping the existing entries in place; deselecting removes
/// them all.  The second result is the force-loosen signal: it is raised
/// exactly when selecting a subtree of more than one node, telling the
/// consuming filter to switch from an intersective to a union combination,
/// and is never raised on a deselection.
pub fn toggle_tag_selection(selected: &Vec<u32>, tags: &Vec<TagInfo>, tag_id: u32) -> (r: (
    Vec<u32>,
    bool,
))
    requires
        ids_distinct(tags@),
        selected@.no_duplicates(),
    ensures
        !selected@.contains(tag_id) ==> {
            &&& r.0@.len() >= selected@.len()
            &&& r.0@.subrange(0, selected@.len() as int) == selected@
            &&& r.0@.no_duplicates()
            &&& r.0@.to_set() == selected@.to_set().union(subtree_ids(tags@, tag_id))
            &&& r.1 == (subtree_ids(tags@, tag_id).len() > 1)
        },
        selected@.contains(tag_id) ==> {
            &&& r.0@ == selected@.filter(|x: u32| !subtree_ids(tags@, tag_id).contains(x))
            &&& !r.1
        },
{
    if !contains_id(selected, tag_id) {
        let sub = collect_subtree(tags, tag_id);
        let mut out: Vec<u32> = Vec::new();
        let mut i: usize = 0;
        while i < selected.len()
            invariant
                0 <= i <= selected@.len(),
                out@ == selected@.subrange(0, i as int),
            decreases selected@.len() - i,
        {
            out.push(selected[i]);
            proof {
                assert(out@ =~= selected@.subrange(0, i as int + 1));
            }
            i = i + 1;
        }
        proof {
            assert(out@ =~= selected@);
        }
        let mut j: usize = 0;
        while j < sub.len()
            invariant
                0 <= j <= sub@.len(),
                sub@.to_set() == subtree_ids(tags@, tag_id),
                sub@.no_duplicates(),
                selected@.no_duplicates(),
                out@.len() >= selected@.len(),
                out@.subrange(0, selected@.len() as int) == selected@,
                out@.no_duplicates(),
                forall|x: u32|
                    #[trigger] out@.contains(x) <==> selected@.contains(x) || exists|k: int|
                        0 <= k < j && sub@[k] == x,
            decreases sub@.len() - j,
        {
            let x = sub[j];
            if !contains_id(&out, x) {
                let ghost oold = out@;
                out.push(x);
                proof {
                    assert(out@.drop_last() =~= oold);
                    assert(out@.subrange(0, selected@.len() as int) =~= oold.subrange(
                        0,
                        selected@.len() as int,
                    ));
                    assert(out@[out@.len() - 1] == x);
                    assert forall|y: u32| #[trigger] out@.contains(y) implies oold.contains(y) || y
                        == x by {
                        let k = choose|k: int| 0 <= k < out@.len() && out@[k] == y;
                        if k < oold.len() {
                            assert(oold[k] == y);
                        }
                    }
                    assert(forall|y: u32| oold.contains(y) ==> #[trigger] out@.contains(y)) by {
                        assert(forall|k: int| 0 <= k < oold.len() ==> out@[k] == oold[k]);
                    }
                }
            }
            j = j + 1;
        }
        proof {
            assert forall|x: u32|
                #[trigger] out@.contains(x) <==> selected@.to_set().union(
                subtree_ids(tags@, tag_id),
            ).contains(x) by {
                if subtree_ids(tags@, tag_id).contains(x) {
                    assert(sub@.to_set().contains(x));
                    let k = choose|k: int| 0 <= k < sub@.len() && sub@[k] == x;
                }
                if out@.contains(x) && !selected@.contains(x) {
                    let k = choose|k: int| 0 <= k < sub@.len() && sub@[k] == x;
                    assert(sub@.to_set().contains(x));
                }
            }
            assert(out@.to_set() =~= selected@.to_set().union(subtree_ids(tags@, tag_id)));
        }
        let force = sub.len() > 1;
        (out, force)
    } else {
        (remove_subtree_from_selection(selected, tags, tag_id), false)
    }
}

} // verus!