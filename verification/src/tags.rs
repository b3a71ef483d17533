//! The tag store and its reconciler: the one place allowed to rewrite
//! parent references and sibling positions.
//!
//! Two invariants hold before and after every committed edit.  Acyclicity:
//! following parent references from any node ends at a root within as many
//! steps as there are nodes.  Dense ordering: within every sibling group
//! (nodes sharing a parent reference, the root level included) the positions
//! are exactly `0..count-1`, without duplicates or gaps.

use vstd::prelude::*;

use crate::ancestry::{
    hits, lemma_reach_within_dom, lemma_reaches_root_after_insert, lemma_reaches_root_insert_avoid,
    lemma_reaches_root_monotone, reaches_root, step,
};
use crate::types::TagInfo;

verus! {

/// Index of the first record carrying `id`, or `-1` when none does.
pub open spec fn first_idx(s: Seq<TagInfo>, id: u32) -> int
    decreases s.len(),
{
    if s.len() == 0 {
        -1
    } else if s[0].id == id {
        0
    } else {
        let r = first_idx(s.skip(1), id);
        if r < 0 {
            -1
        } else {
            r + 1
        }
    }
}

/// Some record carries `id`.
pub open spec fn has_tag(s: Seq<TagInfo>, id: u32) -> bool {
    first_idx(s, id) >= 0
}

/// What [`first_idx`] finds: a valid index of a record carrying `id`, with
/// no earlier one; or nothing carries `id`.
pub proof fn lemma_first_idx_props(s: Seq<TagInfo>, id: u32)
    ensures
        first_idx(s, id) >= 0 ==> {
            &&& 0 <= first_idx(s, id) < s.len()
            &&& s[first_idx(s, id)].id == id
            &&& forall|k: int| 0 <= k < first_idx(s, id) ==> s[k].id != id
        },
        first_idx(s, id) < 0 ==> forall|k: int| 0 <= k < s.len() ==> s[k].id != id,
    decreases s.len(),
{
    if s.len() != 0 && s[0].id != id {
        lemma_first_idx_props(s.skip(1), id);
        if first_idx(s, id) >= 0 {
            assert forall|k: int| 0 <= k < first_idx(s, id) implies s[k].id != id by {
                if k > 0 {
                    assert(s.skip(1)[k - 1] == s[k]);
                }
            }
        } else {
            assert forall|k: int| 0 <= k < s.len() implies s[k].id != id by {
                if k > 0 {
                    assert(s.skip(1)[k - 1] == s[k]);
                }
            }
        }
    }
}

/// [`first_idx`] depends only on the ids, position for position.
pub proof fn lemma_first_idx_same_ids(s1: Seq<TagInfo>, s2: Seq<TagInfo>, id: u32)
    requires
        s1.len() == s2.len(),
        forall|i: int| 0 <= i < s1.len() ==> (#[trigger] s1[i]).id == s2[i].id,
    ensures
        first_idx(s1, id) == first_idx(s2, id),
    decreases s1.len(),
{
    if s1.len() != 0 && s1[0].id != id {
        assert forall|i: int|
            0 <= i < s1.skip(1).len() implies (#[trigger] s1.skip(1)[i]).id == s2.skip(
            1,
        )[i].id by {
            assert(s1.skip(1)[i] == s1[i + 1]);
            assert(s2.skip(1)[i] == s2[i + 1]);
        }
        lemma_first_idx_same_ids(s1.skip(1), s2.skip(1), id);
    }
}

/// No two records carry the same id.
pub open spec fn ids_distinct(s: Seq<TagInfo>) -> bool {
    forall|i: int, j: int| 0 <= i < j < s.len() ==> (#[trigger] s[i]).id != (#[trigger] s[j]).id
}

/// Every parent reference points at a record of the store.
pub open spec fn parents_present(s: Seq<TagInfo>) -> bool {
    forall|i: int|
        0 <= i < s.len() ==> match (#[trigger] s[i]).parent_id {
            None => true,
            Some(p) => has_tag(s, p),
        }
}

/// Number of records in the sibling group of parent reference `p`.
pub open spec fn count_in_group(s: Seq<TagInfo>, p: Option<u32>) -> nat
    decreases s.len(),
{
    if s.len() == 0 {
        0
    } else {
        count_in_group(s.drop_last(), p) + if s.last().parent_id == p {
            1nat
        } else {
            0nat
        }
    }
}

/// A group never outnumbers the store.
pub proof fn lemma_count_le_len(s: Seq<TagInfo>, p: Option<u32>)
    ensures
        count_in_group(s, p) <= s.len(),
    decreases s.len(),
{
    if s.len() != 0 {
        lemma_count_le_len(s.drop_last(), p);
    }
}

/// A group with a member in it is not empty.
pub proof fn lemma_count_positive(s: Seq<TagInfo>, i: int)
    requires
        0 <= i < s.len(),
    ensures
        count_in_group(s, s[i].parent_id) >= 1,
    decreases s.len(),
{
    if i < s.len() - 1 {
        lemma_count_positive(s.drop_last(), i);
    }
}

/// Group counts depend only on the parent references, position for
/// position.
pub proof fn lemma_count_pointwise(s1: Seq<TagInfo>, s2: Seq<TagInfo>, p: Option<u32>)
    requires
        s1.len() == s2.len(),
        forall|i: int| 0 <= i < s1.len() ==> (#[trigger] s1[i]).parent_id == s2[i].parent_id,
    ensures
        count_in_group(s1, p) == count_in_group(s2, p),
    decreases s1.len(),
{
    if s1.len() != 0 {
        assert(forall|i: int|
            0 <= i < s1.drop_last().len() ==> (#[trigger] s1.drop_last()[i]).parent_id
                == s2.drop_last()[i].parent_id);
        lemma_count_pointwise(s1.drop_last(), s2.drop_last(), p);
    }
}

/// Re-pointing one record from one parent to another moves one unit of
/// count between the two groups and disturbs no other group.
pub proof fn lemma_count_reparent(s1: Seq<TagInfo>, s2: Seq<TagInfo>, m: int, p: Option<u32>)
    requires
        s1.len() == s2.len(),
        0 <= m < s1.len(),
        forall|i: int|
            0 <= i < s1.len() && i != m ==> (#[trigger] s1[i]).parent_id == s2[i].parent_id,
        s1[m].parent_id != s2[m].parent_id,
    ensures
        count_in_group(s2, p) == count_in_group(s1, p) + (if p == s2[m].parent_id {
            1int
        } else {
            0int
        }) - (if p == s1[m].parent_id {
            1int
        } else {
            0int
        }),
    decreases s1.len(),
{
    if m < s1.len() - 1 {
        assert(forall|i: int|
            0 <= i < s1.drop_last().len() && i != m ==> (#[trigger] s1.drop_last()[i]).parent_id
                == s2.drop_last()[i].parent_id);
        lemma_count_reparent(s1.drop_last(), s2.drop_last(), m, p);
    } else {
        assert(forall|i: int|
            0 <= i < s1.drop_last().len() ==> (#[trigger] s1.drop_last()[i]).parent_id
                == s2.drop_last()[i].parent_id);
        lemma_count_pointwise(s1.drop_last(), s2.drop_last(), p);
    }
}

/// Positions are dense per group: each lies in `0..count` of its own group,
/// and no two group mates share one.  Together this makes every group's
/// positions exactly `0..count-1`.
pub open spec fn positions_dense(s: Seq<TagInfo>) -> bool {
    &&& forall|i: int|
        0 <= i < s.len() ==> 0 <= (#[trigger] s[i]).position < count_in_group(s, s[i].parent_id)
    &&& forall|i: int, j: int|
        0 <= i < s.len() && 0 <= j < s.len() && i != j && (#[trigger] s[i]).parent_id == (
        #[trigger] s[j]).parent_id ==> s[i].position != s[j].position
}

/// The parent relation of the store: each present id maps to the parent
/// reference of the first record carrying it.
pub open spec fn tag_pm(s: Seq<TagInfo>) -> Map<u32, Option<u32>> {
    Map::new(
        |id: u32| first_idx(s, id) >= 0,
        |id: u32|
            if first_idx(s, id) >= 0 {
                s[first_idx(s, id)].parent_id
            } else {
                None
            },
    )
}

/// Walking parent references from any record ends at a root within as many
/// steps as there are records.
pub open spec fn acyclic(s: Seq<TagInfo>) -> bool {
    forall|i: int|
        0 <= i < s.len() ==> reaches_root(tag_pm(s), (#[trigger] s[i]).id, s.len() as nat)
}

/// Well-formed store: unique ids, parent references into the store, dense
/// per-group positions, and acyclic parent chains.
pub open spec fn tags_wf(s: Seq<TagInfo>) -> bool {
    &&& ids_distinct(s)
    &&& parents_present(s)
    &&& positions_dense(s)
    &&& acyclic(s)
}

/// The parent relation depends only on ids and parent references, position
/// for position.
pub proof fn lemma_tag_pm_pointwise(s1: Seq<TagInfo>, s2: Seq<TagInfo>)
    requires
        s1.len() == s2.len(),
        forall|i: int| 0 <= i < s1.len() ==> (#[trigger] s1[i]).id == s2[i].id,
        forall|i: int| 0 <= i < s1.len() ==> (#[trigger] s1[i]).parent_id == s2[i].parent_id,
    ensures
        tag_pm(s1) == tag_pm(s2),
{
    assert forall|x: u32| #[trigger]
        tag_pm(s1).dom().contains(x) implies tag_pm(s2).dom().contains(x) && tag_pm(s1)[x]
        == tag_pm(s2)[x] by {
        lemma_first_idx_same_ids(s1, s2, x);
        lemma_first_idx_props(s1, x);
    }
    assert forall|x: u32| #[trigger] tag_pm(s2).dom().contains(x) implies tag_pm(
        s1,
    ).dom().contains(x) by {
        lemma_first_idx_same_ids(s1, s2, x);
    }
    assert(tag_pm(s1) =~= tag_pm(s2));
}

/// Re-pointing the record of `id` (and nothing else) inserts one binding
/// into the parent relation.
pub proof fn lemma_tag_pm_insert(s1: Seq<TagInfo>, s2: Seq<TagInfo>, id: u32, np: Option<u32>)
    requires
        s1.len() == s2.len(),
        forall|i: int| 0 <= i < s1.len() ==> (#[trigger] s1[i]).id == s2[i].id,
        has_tag(s1, id),
        forall|i: int|
            0 <= i < s1.len() && i != first_idx(s1, id) ==> (#[trigger] s1[i]).parent_id
                == s2[i].parent_id,
        s2[first_idx(s1, id)].parent_id == np,
    ensures
        tag_pm(s2) == tag_pm(s1).insert(id, np),
{
    let m = first_idx(s1, id);
    let pm2 = tag_pm(s2);
    let pmi = tag_pm(s1).insert(id, np);
    lemma_first_idx_props(s1, id);
    assert forall|x: u32| #[trigger] pm2.dom().contains(x) implies pmi.dom().contains(x) && pm2[x]
        == pmi[x] by {
        lemma_first_idx_same_ids(s1, s2, x);
        lemma_first_idx_props(s1, x);
        if x != id {
            assert(s1[first_idx(s1, x)].id == x);
            assert(first_idx(s1, x) != m);
        }
    }
    assert forall|x: u32| #[trigger] pmi.dom().contains(x) implies pm2.dom().contains(x) by {
        lemma_first_idx_same_ids(s1, s2, x);
    }
    assert(pm2 =~= pmi);
}

/// The ids of the store, in order.
pub open spec fn ids_seq(s: Seq<TagInfo>) -> Seq<u32> {
    Seq::new(s.len(), |i: int| s[i].id)
}

/// The parent relation's domain is the set of ids: finite, and no larger
/// than the store.
pub proof fn lemma_tag_pm_dom(s: Seq<TagInfo>)
    ensures
        tag_pm(s).dom().finite(),
        tag_pm(s).dom().len() <= s.len(),
{
    assert forall|x: u32| tag_pm(s).dom().contains(x) implies ids_seq(s).to_set().contains(x) by {
        lemma_first_idx_props(s, x);
        assert(ids_seq(s)[first_idx(s, x)] == x);
    }
    assert forall|x: u32| ids_seq(s).to_set().contains(x) implies tag_pm(s).dom().contains(x) by {
        let i = choose|i: int| 0 <= i < ids_seq(s).len() && ids_seq(s)[i] == x;
        lemma_first_idx_props(s, x);
    }
    assert(tag_pm(s).dom() =~= ids_seq(s).to_set());
    broadcast use vstd::seq_lib::seq_to_set_is_finite;

    ids_seq(s).lemma_cardinality_of_set();
}

/// Destination slot of a moved record, clamped into its destination group:
/// within one group the last slot is `count - 1`; when arriving from
/// another group one new slot opens at the end, `count`.
pub open spec fn dest_position(s: Seq<TagInfo>, id: u32, np: Option<u32>, tp: int) -> int {
    let m = first_idx(s, id);
    let k = count_in_group(s, np) as int;
    if s[m].parent_id == np {
        if tp >= k {
            k - 1
        } else {
            tp
        }
    } else {
        if tp > k {
            k
        } else {
            tp
        }
    }
}

/// New position of a record `t` other than the moved one `mv`, when `mv`
/// goes to parent `np`, slot `dest`.  Within one group the records between
/// the vacated and the taken slot shift by one; across groups the old
/// group closes the vacated slot and the new group opens one at `dest`.
pub open spec fn shifted_position(t: TagInfo, mv: TagInfo, np: Option<u32>, dest: int) -> int {
    if mv.parent_id == np {
        if t.parent_id == np {
            if mv.position < dest && mv.position < t.position <= dest {
                t.position - 1
            } else if dest < mv.position && dest <= t.position < mv.position {
                t.position + 1
            } else {
                t.position as int
            }
        } else {
            t.position as int
        }
    } else {
        if t.parent_id == mv.parent_id {
            if t.position > mv.position {
                t.position - 1
            } else {
                t.position as int
            }
        } else if t.parent_id == np {
            if t.position >= dest {
                t.position + 1
            } else {
                t.position as int
            }
        } else {
            t.position as int
        }
    }
}

/// The store after moving the record of `id` to parent `np`, target slot
/// `tp`: the moved record lands on its clamped destination slot, its old
/// and new sibling groups shift to stay dense, and everything else is
/// untouched.
pub open spec fn move_result(s: Seq<TagInfo>, id: u32, np: Option<u32>, tp: int) -> Seq<TagInfo> {
    let m = first_idx(s, id);
    let mv = s[m];
    let dest = dest_position(s, id, np, tp);
    Seq::new(
        s.len(),
        |i: int|
            if i == m {
                TagInfo {
                    id: mv.id,
                    name: mv.name,
                    parent_id: np,
                    color: mv.color,
                    position: dest as i32,
                }
            } else {
                TagInfo {
                    id: s[i].id,
                    name: s[i].name,
                    parent_id: s[i].parent_id,
                    color: s[i].color,
                    position: shifted_position(s[i], mv, np, dest) as i32,
                }
            },
    )
}

/// Parent references that stay inside the store keep the parent relation's
/// walks inside its domain.
pub proof fn lemma_tag_pm_closed(s: Seq<TagInfo>)
    requires
        parents_present(s),
    ensures
        forall|k: u32| #[trigger]
            tag_pm(s).dom().contains(k) ==> match tag_pm(s)[k] {
                None => true,
                Some(p) => tag_pm(s).dom().contains(p),
            },
{
    assert forall|k: u32| #[trigger] tag_pm(s).dom().contains(k) implies match tag_pm(s)[k] {
        None => true,
        Some(p) => tag_pm(s).dom().contains(p),
    } by {
        lemma_first_idx_props(s, k);
    }
}

/// A record's id is found: its [`first_idx`] is a real index.
pub proof fn lemma_has_tag_at(s: Seq<TagInfo>, i: int)
    requires
        0 <= i < s.len(),
    ensures
        has_tag(s, s[i].id),
{
    lemma_first_idx_props(s, s[i].id);
}

/// Moving a record as the classifier directs preserves every store
/// invariant: ids and their distinctness, parent references into the
/// store, dense per-group positions, and acyclic parent chains.
pub proof fn lemma_move_result_wf(s: Seq<TagInfo>, id: u32, np: Option<u32>, tp: int)
    requires
        tags_wf(s),
        has_tag(s, id),
        tp >= 0,
        s.len() < 0x7fff_ffff,
        match np {
            None => true,
            Some(p) => has_tag(s, p) && !hits(tag_pm(s), p, id, s.len() as nat),
        },
    ensures
        tags_wf(move_result(s, id, np, tp)),
{
    let m = first_idx(s, id);
    lemma_first_idx_props(s, id);
    let mv = s[m];
    let s2 = move_result(s, id, np, tp);
    let dest = dest_position(s, id, np, tp);
    let k = count_in_group(s, np) as int;
    lemma_count_le_len(s, np);
    assert(s2.len() == s.len());
    assert(forall|i: int| 0 <= i < s.len() ==> (#[trigger] s2[i]).id == s[i].id);
    assert(forall|i: int|
        0 <= i < s.len() && i != m ==> (#[trigger] s2[i]).parent_id == s[i].parent_id);
    assert(s2[m].parent_id == np);

    // Parent references still point at records of the store.
    assert forall|i: int| 0 <= i < s2.len() implies match (#[trigger] s2[i]).parent_id {
        None => true,
        Some(p) => has_tag(s2, p),
    } by {
        match s2[i].parent_id {
            None => {}
            Some(p) => {
                if i == m {
                    lemma_first_idx_same_ids(s, s2, p);
                } else {
                    assert(s[i].parent_id == Some(p));
                    lemma_first_idx_same_ids(s, s2, p);
                }
            },
        }
    }

    if mv.parent_id == np {
        // One group shifts internally; every group keeps its count.
        lemma_count_positive(s, m);
        assert(0 <= dest < k);
        assert forall|p: Option<u32>| true implies #[trigger] count_in_group(s2, p)
            == count_in_group(s, p) by {
            lemma_count_pointwise(s, s2, p);
        }
        assert forall|i: int|
            0 <= i < s2.len() implies 0 <= (#[trigger] s2[i]).position < count_in_group(
            s2,
            s2[i].parent_id,
        ) by {
            assert(count_in_group(s2, s2[i].parent_id) == count_in_group(s, s[i].parent_id));
            if i != m {
                assert(0 <= s[i].position < count_in_group(s, s[i].parent_id));
            }
        }
        assert forall|i: int, j: int|
            0 <= i < s2.len() && 0 <= j < s2.len() && i != j && (#[trigger] s2[i]).parent_id == (
            #[trigger] s2[j]).parent_id implies s2[i].position != s2[j].position by {
            if i != m && j != m {
                assert(s[i].position != s[j].position);
                if s[i].parent_id == np {
                    assert(s[i].position != mv.position);
                    assert(s[j].position != mv.position);
                }
            } else {
                let o = if i == m {
                    j
                } else {
                    i
                };
                assert(s[o].position != mv.position);
                assert(0 <= s[o].position < count_in_group(s, s[o].parent_id));
            }
        }

        // The parent relation is untouched, so every walk still ends.
        lemma_tag_pm_pointwise(s, s2);
        assert forall|i: int|
            0 <= i < s2.len() implies reaches_root(
            tag_pm(s2),
            (#[trigger] s2[i]).id,
            s2.len() as nat,
        ) by {
            assert(reaches_root(tag_pm(s), s[i].id, s.len() as nat));
        }
    } else {
        // One unit of count moves from the old group to the new one.
        lemma_count_positive(s, m);
        let ko = count_in_group(s, mv.parent_id) as int;
        lemma_count_le_len(s, mv.parent_id);
        assert(0 <= dest <= k);
        assert forall|p: Option<u32>| true implies #[trigger] count_in_group(s2, p)
            == count_in_group(s, p) + (if p == np {
            1int
        } else {
            0int
        }) - (if p == mv.parent_id {
            1int
        } else {
            0int
        }) by {
            lemma_count_reparent(s, s2, m, p);
        }
        assert forall|i: int|
            0 <= i < s2.len() implies 0 <= (#[trigger] s2[i]).position < count_in_group(
            s2,
            s2[i].parent_id,
        ) by {
            assert(count_in_group(s2, s2[i].parent_id) == count_in_group(s, s2[i].parent_id) + (
            if s2[i].parent_id == np {
                1int
            } else {
                0int
            }) - (if s2[i].parent_id == mv.parent_id {
                1int
            } else {
                0int
            }));
            if i != m {
                assert(0 <= s[i].position < count_in_group(s, s[i].parent_id));
                if s[i].parent_id == mv.parent_id {
                    assert(s[i].position != mv.position);
                    assert(0 <= mv.position < ko);
                }
            }
        }
        assert forall|i: int, j: int|
            0 <= i < s2.len() && 0 <= j < s2.len() && i != j && (#[trigger] s2[i]).parent_id == (
            #[trigger] s2[j]).parent_id implies s2[i].position != s2[j].position by {
            if i != m && j != m {
                assert(s[i].position != s[j].position);
                if s[i].parent_id == mv.parent_id {
                    assert(s[i].position != mv.position);
                    assert(s[j].position != mv.position);
                }
            }
        }

        // The moved record's new parent chain ends at a root, so every walk
        // still ends, within as many steps as there are records.
        lemma_tag_pm_insert(s, s2, id, np);
        let pm = tag_pm(s);
        let pm2 = tag_pm(s2);
        let ghost len = s.len() as nat;
        assert(reaches_root(pm2, id, len + 1)) by {
            match np {
                None => {
                    assert(step(pm2, id) is None);
                },
                Some(p) => {
                    lemma_first_idx_props(s, p);
                    assert(reaches_root(pm, s[first_idx(s, p)].id, len));
                    lemma_reaches_root_insert_avoid(pm, id, np, p, len);
                    assert(step(pm2, id) == Some(p));
                },
            }
        }
        lemma_tag_pm_dom(s2);
        lemma_tag_pm_closed(s2);
        assert forall|i: int|
            0 <= i < s2.len() implies reaches_root(pm2, (#[trigger] s2[i]).id, s2.len() as nat) by {
            let n = s[i].id;
            assert(reaches_root(pm, n, len));
            lemma_reaches_root_after_insert(pm, id, np, n, len, len + 1);
            lemma_first_idx_same_ids(s, s2, n);
            lemma_first_idx_props(s, n);
            assert(first_idx(s, n) >= 0) by {
                lemma_has_tag_at(s, i);
            }
            assert(pm2.dom().contains(n));
            lemma_reach_within_dom(pm2, n, len + (len + 1));
            lemma_reaches_root_monotone(pm2, n, pm2.dom().len(), s2.len() as nat);
        }
    }
}

/// Index of the record carrying `id`.
fn find_index(tags: &Vec<TagInfo>, id: u32) -> (r: usize)
    requires
        has_tag(tags@, id),
    ensures
        r == first_idx(tags@, id),
{
    proof {
        lemma_first_idx_props(tags@, id);
    }
    let mut i: usize = 0;
    while i < tags.len()
        invariant
            0 <= i <= tags@.len(),
            has_tag(tags@, id),
            forall|k: int| 0 <= k < i ==> (#[trigger] tags@[k]).id != id,
        decreases tags@.len() - i,
    {
        if tags[i].id == id {
            proof {
                lemma_first_idx_props(tags@, id);
            }
            return i;
        }
        i = i + 1;
    }
    proof {
        lemma_first_idx_props(tags@, id);
        assert(false);
    }
    0
}

/// Number of records whose parent reference is `p`.
fn count_group(tags: &Vec<TagInfo>, p: Option<u32>) -> (n: usize)
    ensures
        n == count_in_group(tags@, p),
{
    let mut n: usize = 0;
    let mut i: usize = 0;
    proof {
        assert(tags@.subrange(0, 0).len() == 0);
    }
    while i < tags.len()
        invariant
            0 <= i <= tags@.len(),
            n <= i,
            n == count_in_group(tags@.subrange(0, i as int), p),
        decreases tags@.len() - i,
    {
        proof {
            assert(tags@.subrange(0, i as int + 1).drop_last() =~= tags@.subrange(0, i as int));
            assert(tags@.subrange(0, i as int + 1).last() == tags@[i as int]);
        }
        if tags[i].parent_id == p {
            n = n + 1;
        }
        i = i + 1;
    }
    proof {
        assert(tags@.subrange(0, tags@.len() as int) =~= tags@);
    }
    n
}

/// Overwrites one record's position, leaving every other field and record
/// alone.
fn set_position(tags: &mut Vec<TagInfo>, i: usize, pos: i32)
    requires
        i < old(tags)@.len(),
    ensures
        final(tags)@.len() == old(tags)@.len(),
        final(tags)@[i as int].id == old(tags)@[i as int].id,
        final(tags)@[i as int].name == old(tags)@[i as int].name,
        final(tags)@[i as int].parent_id == old(tags)@[i as int].parent_id,
        final(tags)@[i as int].color == old(tags)@[i as int].color,
        final(tags)@[i as int].position == pos,
        forall|j: int| 0 <= j < final(tags)@.len() && j != i ==> final(tags)@[j] == old(tags)@[j],
{
    tags[i].position = pos;
}

/// Overwrites one record's parent reference and position, leaving every
/// other field and record alone.
fn set_placement(tags: &mut Vec<TagInfo>, i: usize, parent: Option<u32>, pos: i32)
    requires
        i < old(tags)@.len(),
    ensures
        final(tags)@.len() == old(tags)@.len(),
        final(tags)@[i as int].id == old(tags)@[i as int].id,
        final(tags)@[i as int].name == old(tags)@[i as int].name,
        final(tags)@[i as int].parent_id == parent,
        final(tags)@[i as int].color == old(tags)@[i as int].color,
        final(tags)@[i as int].position == pos,
        forall|j: int| 0 <= j < final(tags)@.len() && j != i ==> final(tags)@[j] == old(tags)@[j],
{
    tags[i].parent_id = parent;
    tags[i].position = pos;
}

/// Moves the record of `id` under parent `new_parent_id` at slot
/// `target_position`, shifting its old and new sibling groups so that both
/// stay dense.  Positions past a group's end land on its last slot (within
/// one group) or append after it (arriving from another group).
///
/// The dense-ordering and acyclicity invariants hold afterwards on any
/// well-formed store, for every move the classifier can produce: the cycle
/// guard has already ruled out a destination inside the moved record's own
/// subtree.
pub fn move_tag(tags: &mut Vec<TagInfo>, id: u32, new_parent_id: Option<u32>, target_position: i32)
    requires
        tags_wf(old(tags)@),
        has_tag(old(tags)@, id),
        target_position >= 0,
        old(tags)@.len() < 0x7fff_ffff,
        match new_parent_id {
            None => true,
            Some(p) => has_tag(old(tags)@, p) && !hits(
                tag_pm(old(tags)@),
                p,
                id,
                old(tags)@.len() as nat,
            ),
        },
    ensures
        final(tags)@ == move_result(old(tags)@, id, new_parent_id, target_position as int),
        tags_wf(final(tags)@),
{
    let ghost s0 = old(tags)@;
    proof {
        lemma_first_idx_props(s0, id);
        lemma_count_le_len(s0, new_parent_id);
    }
    let m = find_index(tags, id);
    let old_parent: Option<u32> = tags[m].parent_id;
    let old_pos: i32 = tags[m].position;
    let k = count_group(tags, new_parent_id);
    let same: bool = old_parent == new_parent_id;
    let ghost mv = s0[m as int];
    let dest: i32 = if same {
        proof {
            lemma_count_positive(s0, m as int);
        }
        if target_position >= k as i32 {
            (k as i32) - 1
        } else {
            target_position
        }
    } else {
        if target_position > k as i32 {
            k as i32
        } else {
            target_position
        }
    };
    proof {
        assert(dest == dest_position(s0, id, new_parent_id, target_position as int));
    }
    let mut i: usize = 0;
    while i < tags.len()
        invariant
            tags@.len() == s0.len(),
            0 <= i <= s0.len(),
            positions_dense(s0),
            m == first_idx(s0, id),
            0 <= m < s0.len(),
            mv == s0[m as int],
            old_parent == mv.parent_id,
            old_pos == mv.position,
            same == (mv.parent_id == new_parent_id),
            k == count_in_group(s0, new_parent_id),
            k <= s0.len() < 0x7fff_ffff,
            dest as int == dest_position(s0, id, new_parent_id, target_position as int),
            0 <= dest,
            same ==> dest < k,
            !same ==> dest <= k,
            forall|j: int| 0 <= j < s0.len() ==> (#[trigger] tags@[j]).id == s0[j].id,
            forall|j: int| 0 <= j < s0.len() ==> (#[trigger] tags@[j]).name == s0[j].name,
            forall|j: int| 0 <= j < s0.len() ==> (#[trigger] tags@[j]).color == s0[j].color,
            forall|j: int| 0 <= j < s0.len() ==> (#[trigger] tags@[j]).parent_id == s0[j].parent_id,
            forall|j: int| i <= j < s0.len() ==> (#[trigger] tags@[j]).position == s0[j].position,
            forall|j: int|
                0 <= j < i && j != m ==> (#[trigger] tags@[j]).position == shifted_position(
                    s0[j],
                    mv,
                    new_parent_id,
                    dest as int,
                ),
            m < i ==> tags@[m as int].position == s0[m as int].position,
        decreases s0.len() - i,
    {
        if i != m {
            let pp: i32 = tags[i].position;
            proof {
                assert(0 <= s0[i as int].position < count_in_group(s0, s0[i as int].parent_id));
                lemma_count_le_len(s0, s0[i as int].parent_id);
            }
            if same {
                if tags[i].parent_id == new_parent_id {
                    if old_pos < dest && old_pos < pp && pp <= dest {
                        set_position(tags, i, pp - 1);
                    } else if dest < old_pos && dest <= pp && pp < old_pos {
                        set_position(tags, i, pp + 1);
                    }
                }
            } else {
                if tags[i].parent_id == old_parent && pp > old_pos {
                    set_position(tags, i, pp - 1);
                } else if tags[i].parent_id == new_parent_id && pp >= dest {
                    set_position(tags, i, pp + 1);
                }
            }
        }
        i = i + 1;
    }
    set_placement(tags, m, new_parent_id, dest);
    proof {
        lemma_move_result_wf(s0, id, new_parent_id, target_position as int);
        assert(tags@ =~= move_result(s0, id, new_parent_id, target_position as int));
    }
}

/// `node` lies in the subtree of `ancestor`: walking parent references
/// upward from `node` meets `ancestor` within as many steps as there are
/// records (the two being equal counts).
pub open spec fn in_subtree_spec(s: Seq<TagInfo>, ancestor: u32, node: u32) -> bool {
    hits(tag_pm(s), node, ancestor, s.len() as nat)
}

/// Parent reference of the record carrying `id`, or `None` when no record
/// carries it.
fn lookup_parent(tags: &Vec<TagInfo>, id: u32) -> (r: Option<Option<u32>>)
    ensures
        has_tag(tags@, id) ==> r == Some(tags@[first_idx(tags@, id)].parent_id),
        !has_tag(tags@, id) ==> r is None,
{
    let mut i: usize = 0;
    while i < tags.len()
        invariant
            0 <= i <= tags@.len(),
            forall|k: int| 0 <= k < i ==> (#[trigger] tags@[k]).id != id,
        decreases tags@.len() - i,
    {
        if tags[i].id == id {
            proof {
                lemma_first_idx_props(tags@, id);
            }
            return Some(tags[i].parent_id);
        }
        i = i + 1;
    }
    proof {
        lemma_first_idx_props(tags@, id);
    }
    None
}

/// Reports whether `node` lies in the subtree of `ancestor`, walking parent
/// references upward for at most as many steps as there are records.  The
/// step bound makes the walk total even on a corrupted snapshot.
pub fn in_subtree(tags: &Vec<TagInfo>, ancestor: u32, node: u32) -> (r: bool)
    ensures
        r == in_subtree_spec(tags@, ancestor, node),
{
    let ghost pm = tag_pm(tags@);
    let mut cur: u32 = node;
    let mut fuel: usize = tags.len();
    loop
        invariant
            pm == tag_pm(tags@),
            fuel <= tags@.len(),
            hits(pm, node, ancestor, tags@.len() as nat) == hits(pm, cur, ancestor, fuel as nat),
        decreases fuel,
    {
        if cur == ancestor {
            return true;
        }
        match lookup_parent(tags, cur) {
            None => {
                return false;
            },
            Some(parent) => {
                match parent {
                    None => {
                        return false;
                    },
                    Some(p) => {
                        if fuel == 0 {
                            return false;
                        }
                        fuel = fuel - 1;
                        cur = p;
                    },
                }
            },
        }
    }
}

/// Validates a move request at run time and applies it when legal: the
/// moved record must exist, the target position must not be negative, and
/// the destination parent must exist and must not lie in the moved record's
/// own subtree.  An illegal request leaves the store untouched.
pub fn move_tag_checked(
    tags: &mut Vec<TagInfo>,
    id: u32,
    new_parent_id: Option<u32>,
    target_position: i32,
) -> (ok: bool)
    requires
        tags_wf(old(tags)@),
        old(tags)@.len() < 0x7fff_ffff,
    ensures
        ok == (has_tag(old(tags)@, id) && target_position >= 0 && match new_parent_id {
            None => true,
            Some(p) => has_tag(old(tags)@, p) && !in_subtree_spec(old(tags)@, id, p),
        }),
        ok ==> final(tags)@ == move_result(
            old(tags)@,
            id,
            new_parent_id,
            target_position as int,
        ) && tags_wf(final(tags)@),
        !ok ==> final(tags)@ == old(tags)@ && tags_wf(final(tags)@),
{
    if target_position < 0 {
        return false;
    }
    if lookup_parent(tags, id).is_none() {
        return false;
    }
    match new_parent_id {
        None => {},
        Some(p) => {
            if lookup_parent(tags, p).is_none() {
                return false;
            }
            if in_subtree(tags, id, p) {
                return false;
            }
        },
    }
    move_tag(tags, id, new_parent_id, target_position);
    true
}

/// Appending a record leaves every found index alone and makes the new id
/// found at the end.
pub proof fn lemma_first_idx_push(s: Seq<TagInfo>, t: TagInfo, x: u32)
    ensures
        first_idx(s, x) >= 0 ==> first_idx(s.push(t), x) == first_idx(s, x),
        first_idx(s, x) < 0 ==> first_idx(s.push(t), x) == (if t.id == x {
            s.len() as int
        } else {
            -1
        }),
    decreases s.len(),
{
    if s.len() == 0 {
        assert(s.push(t)[0] == t);
        let e = s.push(t).skip(1);
        assert(e.len() == 0);
        assert(first_idx(e, x) == -1);
    } else if s[0].id != x {
        assert(s.push(t)[0] == s[0]);
        assert(s.push(t).skip(1) =~= s.skip(1).push(t));
        lemma_first_idx_push(s.skip(1), t, x);
        assert(first_idx(s.push(t).skip(1), x) == first_idx(s.skip(1).push(t), x));
    } else {
        assert(s.push(t)[0] == s[0]);
    }
}

/// Appending a record with a fresh id inserts one binding into the parent
/// relation.
pub proof fn lemma_tag_pm_push(s: Seq<TagInfo>, t: TagInfo)
    requires
        !has_tag(s, t.id),
    ensures
        tag_pm(s.push(t)) == tag_pm(s).insert(t.id, t.parent_id),
{
    let s2 = s.push(t);
    let pm2 = tag_pm(s2);
    let pmi = tag_pm(s).insert(t.id, t.parent_id);
    assert forall|x: u32| #[trigger] pm2.dom().contains(x) implies pmi.dom().contains(x) && pm2[x]
        == pmi[x] by {
        lemma_first_idx_push(s, t, x);
        lemma_first_idx_props(s, x);
        if x == t.id {
            assert(s2[s.len() as int] == t);
        } else {
            assert(s2[first_idx(s, x)] == s[first_idx(s, x)]);
        }
    }
    assert forall|x: u32| #[trigger] pmi.dom().contains(x) implies pm2.dom().contains(x) by {
        lemma_first_idx_push(s, t, x);
    }
    assert(pm2 =~= pmi);
}

/// Creates a tag record appended at the end of its sibling group: the new
/// position is the count of the records already under the same parent.
/// Returns that position.
pub fn create_tag(
    tags: &mut Vec<TagInfo>,
    id: u32,
    name: String,
    parent_id: Option<u32>,
    color: Option<String>,
) -> (position: i32)
    requires
        tags_wf(old(tags)@),
        !has_tag(old(tags)@, id),
        old(tags)@.len() + 1 < 0x7fff_ffff,
        match parent_id {
            None => true,
            Some(p) => has_tag(old(tags)@, p),
        },
    ensures
        position == count_in_group(old(tags)@, parent_id) as i32,
        final(tags)@ == old(tags)@.push((TagInfo { id, name, parent_id, color, position })),
        tags_wf(final(tags)@),
{
    let ghost s0 = old(tags)@;
    proof {
        lemma_count_le_len(s0, parent_id);
        lemma_first_idx_props(s0, id);
    }
    let n = count_group(tags, parent_id);
    let pos: i32 = n as i32;
    tags.push(TagInfo { id, name, parent_id, color, position: pos });
    proof {
        let s2 = tags@;
        let tt = s2[s0.len() as int];
        assert(s2.drop_last() =~= s0);
        assert(s2.last() == tt);

        // Group counts: the new record's group grows by one, others stay.
        assert forall|p: Option<u32>| true implies #[trigger] count_in_group(s2, p)
            == count_in_group(s0, p) + (if p == parent_id {
            1int
        } else {
            0int
        }) by {
            assert(count_in_group(s2, p) == count_in_group(s2.drop_last(), p) + (
            if s2.last().parent_id == p {
                1nat
            } else {
                0nat
            }));
        }

        // Ids stay distinct: nothing carried the fresh id.
        assert(forall|k: int| 0 <= k < s0.len() ==> (#[trigger] s0[k]).id != id);

        // Parent references still point at records of the store.
        assert forall|i: int| 0 <= i < s2.len() implies match (#[trigger] s2[i]).parent_id {
            None => true,
            Some(p) => has_tag(s2, p),
        } by {
            match s2[i].parent_id {
                None => {}
                Some(p) => {
                    if i < s0.len() {
                        assert(s2[i] == s0[i]);
                    }
                    lemma_first_idx_push(s0, tt, p);
                },
            }
        }

        // Dense positions: the new record takes the next slot of its group.
        assert forall|i: int|
            0 <= i < s2.len() implies 0 <= (#[trigger] s2[i]).position < count_in_group(
            s2,
            s2[i].parent_id,
        ) by {
            if i < s0.len() {
                assert(s2[i] == s0[i]);
                assert(0 <= s0[i].position < count_in_group(s0, s0[i].parent_id));
            }
        }
        assert forall|i: int, j: int|
            0 <= i < s2.len() && 0 <= j < s2.len() && i != j && (#[trigger] s2[i]).parent_id == (
            #[trigger] s2[j]).parent_id implies s2[i].position != s2[j].position by {
            if i < s0.len() && j < s0.len() {
                assert(s2[i] == s0[i] && s2[j] == s0[j]);
            } else {
                let o = if i < s0.len() {
                    i
                } else {
                    j
                };
                if o < s0.len() {
                    assert(s2[o] == s0[o]);
                    assert(s0[o].position < count_in_group(s0, s0[o].parent_id));
                }
            }
        }

        // Acyclicity: the fresh record hangs under an existing root-reaching
        // parent, and no other walk changes.
        lemma_tag_pm_push(s0, tt);
        let pm = tag_pm(s0);
        let pm2 = tag_pm(s2);
        let ghost len = s0.len() as nat;
        lemma_tag_pm_closed(s0);
        assert(reaches_root(pm2, id, len + 1)) by {
            match parent_id {
                None => {
                    assert(step(pm2, id) is None);
                },
                Some(p) => {
                    lemma_first_idx_props(s0, p);
                    assert(reaches_root(pm, s0[first_idx(s0, p)].id, len));
                    assert(!hits(pm, p, id, len)) by {
                        if hits(pm, p, id, len) {
                            crate::ancestry::lemma_hits_in_dom(pm, p, id, len);
                        }
                    }
                    lemma_reaches_root_insert_avoid(pm, id, parent_id, p, len);
                    assert(step(pm2, id) == Some(p));
                },
            }
        }
        lemma_tag_pm_dom(s2);
        lemma_tag_pm_closed(s2);
        assert forall|i: int|
            0 <= i < s2.len() implies reaches_root(pm2, (#[trigger] s2[i]).id, s2.len() as nat) by {
            let n = s2[i].id;
            if i < s0.len() {
                assert(s2[i] == s0[i]);
                assert(reaches_root(pm, n, len));
                lemma_reaches_root_after_insert(pm, id, parent_id, n, len, len + 1);
                lemma_first_idx_push(s0, tt, n);
                lemma_has_tag_at(s0, i);
            } else {
                lemma_reaches_root_monotone(pm2, id, len + 1, len + (len + 1));
                lemma_first_idx_push(s0, tt, id);
            }
            assert(pm2.dom().contains(n));
            lemma_reach_within_dom(pm2, n, len + (len + 1));
            lemma_reaches_root_monotone(pm2, n, pm2.dom().len(), s2.len() as nat);
        }
    }
    pos
}

/// Display order of the tag list: by parent reference (root level first,
/// then parents by id), and by position within a sibling group.
pub open spec fn tag_order_le(a: TagInfo, b: TagInfo) -> bool {
    match (a.parent_id, b.parent_id) {
        (None, None) => a.position <= b.position,
        (None, Some(_)) => true,
        (Some(_), None) => false,
        (Some(x), Some(y)) => x < y || (x == y && a.position <= b.position),
    }
}

/// Compares two records in display order.
fn tag_order_le_exec(a: &TagInfo, b: &TagInfo) -> (r: bool)
    ensures
        r == tag_order_le(*a, *b),
{
    match (a.parent_id, b.parent_id) {
        (None, None) => a.position <= b.position,
        (None, Some(_)) => true,
        (Some(_), None) => false,
        (Some(x), Some(y)) => x < y || (x == y && a.position <= b.position),
    }
}

/// Swaps two neighboring records.
fn swap_adjacent_tags(v: &mut Vec<TagInfo>, j: usize)
    requires
        1 <= j < old(v)@.len(),
    ensures
        final(v)@ == old(v)@.update(j - 1, old(v)@[j as int]).update(j as int, old(v)@[j - 1]),
        final(v)@.to_multiset() == old(v)@.to_multiset(),
{
    let ghost s0 = v@;
    let x = v.remove(j);
    let ghost s1 = v@;
    v.insert(j - 1, x);
    proof {
        assert(v@ =~= s0.update(j - 1, s0[j as int]).update(j as int, s0[j - 1]));
        broadcast use vstd::seq_lib::group_to_multiset_ensures;
        broadcast use vstd::seq_lib::to_multiset_insert;

        assert(s1.to_multiset() =~= s0.to_multiset().remove(s0[j as int]));
        assert(v@.to_multiset() =~= s1.to_multiset().insert(s0[j as int]));
        assert(s0.contains(s0[j as int]));
        assert(s0.to_multiset().count(s0[j as int]) > 0);
        assert(v@.to_multiset() =~= s0.to_multiset());
    }
}

/// Sorts a tag list into display order: the same records, ordered by
/// parent reference and position, the order in which the tree is read and
/// rendered.
pub fn order_tags(tags: Vec<TagInfo>) -> (r: Vec<TagInfo>)
    ensures
        r@.len() == tags@.len(),
        r@.to_multiset() == tags@.to_multiset(),
        forall|x: int, y: int| 0 <= x < y < r@.len() ==> tag_order_le(#[trigger] r@[x], #[trigger] r@[y]),
{
    let ghost s0 = tags@;
    let mut v = tags;
    if v.len() <= 1 {
        return v;
    }
    let mut i: usize = 1;
    while i < v.len()
        invariant
            1 <= i <= v@.len(),
            v@.len() == s0.len(),
            v@.to_multiset() == s0.to_multiset(),
            forall|x: int, y: int|
                0 <= x < y < i ==> tag_order_le(#[trigger] v@[x], #[trigger] v@[y]),
        decreases v@.len() - i,
    {
        let mut j: usize = i;
        while j > 0
            invariant
                0 <= j <= i < v@.len(),
                v@.len() == s0.len(),
                v@.to_multiset() == s0.to_multiset(),
                forall|x: int, y: int|
                    0 <= x < y <= i && y != j ==> tag_order_le(#[trigger] v@[x], #[trigger] v@[y]),
                j < i ==> tag_order_le(v@[j as int], v@[j + 1]),
            ensures
                v@.len() == s0.len(),
                v@.to_multiset() == s0.to_multiset(),
                forall|x: int, y: int|
                    0 <= x < y <= i && y != j ==> tag_order_le(#[trigger] v@[x], #[trigger] v@[y]),
                j < i ==> tag_order_le(v@[j as int], v@[j + 1]),
                j == 0 || tag_order_le(v@[j - 1], v@[j as int]),
            decreases j,
        {
            let stay = tag_order_le_exec(&v[j - 1], &v[j]);
            if stay {
                break ;
            }
            let ghost before = v@;
            swap_adjacent_tags(&mut v, j);
            proof {
                assert forall|x: int, y: int|
                    0 <= x < y <= i && y != j - 1 implies tag_order_le(
                    #[trigger] v@[x],
                    #[trigger] v@[y],
                ) by {
                    if y == j {
                        if x < j - 1 {
                            assert(tag_order_le(before[x], before[j - 1]));
                        }
                    } else if y > j {
                        if x == j - 1 {
                            assert(tag_order_le(before[j as int], before[j + 1]));
                            if y > j + 1 {
                                assert(tag_order_le(before[j + 1], before[y]));
                            }
                        } else if x == j {
                            assert(tag_order_le(before[j - 1], before[y]));
                        } else {
                            assert(v@[x] == before[x] && v@[y] == before[y]);
                        }
                    } else {
                        assert(v@[x] == before[x] && v@[y] == before[y]);
                    }
                }
            }
            j = j - 1;
        }
        proof {
            assert forall|x: int, y: int|
                0 <= x < y <= i implies tag_order_le(#[trigger] v@[x], #[trigger] v@[y]) by {
                if y == j && j > 0 && x < j - 1 {
                    assert(tag_order_le(v@[x], v@[j - 1]));
                }
            }
        }
        i = i + 1;
    }
    v
}

/// Overwrites one record's name and color, leaving every other field and
/// record alone.
fn set_name_color(tags: &mut Vec<TagInfo>, i: usize, name: String, color: Option<String>)
    requires
        i < old(tags)@.len(),
    ensures
        final(tags)@.len() == old(tags)@.len(),
        final(tags)@[i as int].id == old(tags)@[i as int].id,
        final(tags)@[i as int].name == name,
        final(tags)@[i as int].parent_id == old(tags)@[i as int].parent_id,
        final(tags)@[i as int].color == color,
        final(tags)@[i as int].position == old(tags)@[i as int].position,
        forall|j: int| 0 <= j < final(tags)@.len() && j != i ==> final(tags)@[j] == old(tags)@[j],
{
    tags[i].name = name;
    tags[i].color = color;
}

/// Renames and recolors the record carrying `id`, touching neither parent
/// references nor positions: a simple field edit preserves every ordering
/// invariant.  Returns whether the record was found.
pub fn update_tag(tags: &mut Vec<TagInfo>, id: u32, name: String, color: Option<String>) -> (ok:
    bool)
    requires
        tags_wf(old(tags)@),
    ensures
        ok == has_tag(old(tags)@, id),
        ok ==> final(tags)@ == old(tags)@.update(
            first_idx(old(tags)@, id),
            (TagInfo {
                id,
                name,
                parent_id: old(tags)@[first_idx(old(tags)@, id)].parent_id,
                color,
                position: old(tags)@[first_idx(old(tags)@, id)].position,
            }),
        ),
        !ok ==> final(tags)@ == old(tags)@,
        tags_wf(final(tags)@),
{
    let ghost s0 = old(tags)@;
    let mut i: usize = 0;
    while i < tags.len()
        invariant
            s0 == old(tags)@,
            tags_wf(s0),
            0 <= i <= s0.len(),
            tags@ == s0,
            forall|k: int| 0 <= k < i ==> (#[trigger] s0[k]).id != id,
        decreases s0.len() - i,
    {
        if tags[i].id == id {
            proof {
                lemma_first_idx_props(s0, id);
            }
            set_name_color(tags, i, name, color);
            proof {
                let s2 = tags@;
                assert(s2 =~= s0.update(
                    first_idx(s0, id),
                    (TagInfo {
                        id,
                        name,
                        parent_id: s0[first_idx(s0, id)].parent_id,
                        color,
                        position: s0[first_idx(s0, id)].position,
                    }),
                )) by {
                    assert(s2[i as int].name == name && s2[i as int].color == color);
                    assert(s2[i as int].id == id && s0[i as int].id == id);
                }
                assert forall|p: Option<u32>| true implies #[trigger] count_in_group(s2, p)
                    == count_in_group(s0, p) by {
                    lemma_count_pointwise(s0, s2, p);
                }
                assert forall|k: int| 0 <= k < s2.len() implies match (#[trigger] s2[k]).parent_id {
                    None => true,
                    Some(p) => has_tag(s2, p),
                } by {
                    match s2[k].parent_id {
                        None => {}
                        Some(p) => {
                            lemma_first_idx_same_ids(s0, s2, p);
                        },
                    }
                }
                lemma_tag_pm_pointwise(s0, s2);
                assert forall|k: int|
                    0 <= k < s2.len() implies reaches_root(
                    tag_pm(s2),
                    (#[trigger] s2[k]).id,
                    s2.len() as nat,
                ) by {
                    assert(reaches_root(tag_pm(s0), s0[k].id, s0.len() as nat));
                }
            }
            return true;
        }
        i = i + 1;
    }
    proof {
        lemma_first_idx_props(s0, id);
    }
    false
}

/// The indices of a sibling group's records.
pub open spec fn group_indices(s: Seq<TagInfo>, p: Option<u32>) -> Set<int> {
    Set::new(|i: int| 0 <= i < s.len() && s[i].parent_id == p)
}

/// A group's index set is finite and as large as its count.
pub proof fn lemma_group_indices_count(s: Seq<TagInfo>, p: Option<u32>)
    ensures
        group_indices(s, p).finite(),
        group_indices(s, p).len() == count_in_group(s, p),
    decreases s.len(),
{
    if s.len() == 0 {
        assert(group_indices(s, p) =~= Set::<int>::empty());
    } else {
        let d = s.drop_last();
        lemma_group_indices_count(d, p);
        if s.last().parent_id == p {
            assert(group_indices(s, p) =~= group_indices(d, p).insert(s.len() - 1));
            assert(!group_indices(d, p).contains(s.len() - 1));
        } else {
            assert(group_indices(s, p) =~= group_indices(d, p));
        }
    }
}

/// No slot of a dense group goes empty: with `count` records holding
/// distinct positions inside `0..count`, every value in that range is some
/// record's position.  Together with [`positions_dense`] this makes a
/// group's positions exactly `0..count-1`.
pub proof fn lemma_dense_positions_onto(s: Seq<TagInfo>, p: Option<u32>, v: int)
    requires
        positions_dense(s),
        0 <= v < count_in_group(s, p),
    ensures
        exists|i: int| 0 <= i < s.len() && (#[trigger] s[i]).parent_id == p && s[i].position == v,
{
    let k = count_in_group(s, p) as int;
    let gi = group_indices(s, p);
    lemma_group_indices_count(s, p);
    let f = |i: int| s[i].position as int;
    let posset = gi.map(f);
    assert(vstd::relations::injective_on(f, gi));
    vstd::set_lib::lemma_map_size(gi, posset, f);
    vstd::set_lib::lemma_int_range(0, k);
    assert forall|x: int| #[trigger] posset.contains(x) implies vstd::set_lib::set_int_range(
        0,
        k,
    ).contains(x) by {
        let i = choose|i: int| gi.contains(i) && f(i) == x;
        assert(0 <= s[i].position < count_in_group(s, s[i].parent_id));
    }
    vstd::set_lib::lemma_subset_equality(posset, vstd::set_lib::set_int_range(0, k));
    assert(posset.contains(v));
    let i = choose|i: int| gi.contains(i) && f(i) == v;
    assert(0 <= i < s.len() && s[i].parent_id == p && s[i].position == v);
}

} // verus!
