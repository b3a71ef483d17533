//! Parent-chain walks over a tag forest, abstracted as a map from node id
//! to optional parent id.
//!
//! The forest is acyclic when walking the parent chain from any node ends at
//! a root within as many steps as there are nodes.  A walk that reaches an id
//! with no entry in the map also ends there: a dangling parent reference is
//! treated like a root, which is how the walking code behaves when a node has
//! disappeared from a snapshot.

use vstd::prelude::*;

verus! {

/// One step of a parent walk: the parent of `n`, or `None` when `n` has no
/// entry or is a root.
pub open spec fn step(pm: Map<u32, Option<u32>>, n: u32) -> Option<u32> {
    if pm.dom().contains(n) {
        pm[n]
    } else {
        None
    }
}

/// The walk from `n` ends at a root within `fuel` steps.
pub open spec fn reaches_root(pm: Map<u32, Option<u32>>, n: u32, fuel: nat) -> bool
    decreases fuel,
{
    match step(pm, n) {
        None => true,
        Some(q) => fuel > 0 && reaches_root(pm, q, (fuel - 1) as nat),
    }
}

/// The walk from `n` meets `target` within `fuel` steps (`n == target`
/// counts as met immediately).
pub open spec fn hits(pm: Map<u32, Option<u32>>, n: u32, target: u32, fuel: nat) -> bool
    decreases fuel,
{
    if n == target {
        true
    } else {
        match step(pm, n) {
            None => false,
            Some(q) => fuel > 0 && hits(pm, q, target, (fuel - 1) as nat),
        }
    }
}

/// More fuel never hurts a root walk.
pub proof fn lemma_reaches_root_monotone(pm: Map<u32, Option<u32>>, n: u32, f: nat, g: nat)
    requires
        reaches_root(pm, n, f),
        f <= g,
    ensures
        reaches_root(pm, n, g),
    decreases f,
{
    match step(pm, n) {
        None => {}
        Some(q) => {
            lemma_reaches_root_monotone(pm, q, (f - 1) as nat, (g - 1) as nat);
        }
    }
}

/// Length of the walk from `n` to its root, as far as `fuel` carries it.
pub open spec fn walk_len(pm: Map<u32, Option<u32>>, n: u32, fuel: nat) -> nat
    decreases fuel,
{
    match step(pm, n) {
        None => 0,
        Some(q) => if fuel == 0 {
            0
        } else {
            1 + walk_len(pm, q, (fuel - 1) as nat)
        },
    }
}

/// On a terminating walk, the walk length is at most the fuel, and is
/// itself enough fuel to finish the walk.
pub proof fn lemma_walk_len_exact(pm: Map<u32, Option<u32>>, n: u32, f: nat)
    requires
        reaches_root(pm, n, f),
    ensures
        walk_len(pm, n, f) <= f,
        reaches_root(pm, n, walk_len(pm, n, f)),
    decreases f,
{
    match step(pm, n) {
        None => {}
        Some(q) => {
            lemma_walk_len_exact(pm, q, (f - 1) as nat);
        }
    }
}

/// The walk length does not depend on the fuel, once there is enough of it.
pub proof fn lemma_walk_len_fuel(pm: Map<u32, Option<u32>>, n: u32, f1: nat, f2: nat)
    requires
        reaches_root(pm, n, f1),
        reaches_root(pm, n, f2),
    ensures
        walk_len(pm, n, f1) == walk_len(pm, n, f2),
    decreases f1,
{
    match step(pm, n) {
        None => {}
        Some(q) => {
            lemma_walk_len_fuel(pm, q, (f1 - 1) as nat, (f2 - 1) as nat);
        }
    }
}

/// Any node met on a terminating walk is itself on a terminating walk, no
/// longer than the one it was met on.
pub proof fn lemma_hit_walk_len(pm: Map<u32, Option<u32>>, n: u32, target: u32, g: nat, f: nat)
    requires
        hits(pm, n, target, g),
        reaches_root(pm, n, f),
    ensures
        reaches_root(pm, target, f),
        walk_len(pm, target, f) <= walk_len(pm, n, f),
    decreases g,
{
    if n != target {
        match step(pm, n) {
            None => {}
            Some(q) => {
                lemma_hit_walk_len(pm, q, target, (g - 1) as nat, (f - 1) as nat);
                lemma_reaches_root_monotone(pm, target, (f - 1) as nat, f);
                lemma_walk_len_fuel(pm, target, (f - 1) as nat, f);
            }
        }
    }
}

/// A node on a terminating walk is never met again further up the walk.
pub proof fn lemma_no_self_hit(pm: Map<u32, Option<u32>>, n: u32, q: u32, f: nat, g: nat)
    requires
        reaches_root(pm, n, f),
        step(pm, n) == Some(q),
    ensures
        !hits(pm, q, n, g),
    decreases g,
{
    if hits(pm, q, n, g) {
        lemma_hit_walk_len(pm, q, n, g, (f - 1) as nat);
        lemma_reaches_root_monotone(pm, n, (f - 1) as nat, f);
        lemma_walk_len_fuel(pm, n, (f - 1) as nat, f);
        assert(walk_len(pm, n, f) == 1 + walk_len(pm, q, (f - 1) as nat));
        assert(false);
    }
}

/// A walk that starts in the domain and stays there only meets domain
/// nodes.
pub proof fn lemma_hits_in_dom(pm: Map<u32, Option<u32>>, n: u32, target: u32, f: nat)
    requires
        hits(pm, n, target, f),
        pm.dom().contains(n),
        forall|k: u32| #[trigger]
            pm.dom().contains(k) ==> match pm[k] {
                None => true,
                Some(p) => pm.dom().contains(p),
            },
    ensures
        pm.dom().contains(target),
    decreases f,
{
    if n != target {
        match step(pm, n) {
            None => {}
            Some(q) => {
                lemma_hits_in_dom(pm, q, target, (f - 1) as nat);
            }
        }
    }
}

/// The nodes visited by a walk from `n`, as far as `fuel` carries it.
pub open spec fn walk_set(pm: Map<u32, Option<u32>>, n: u32, fuel: nat) -> Set<u32>
    decreases fuel,
{
    match step(pm, n) {
        None => set![n],
        Some(q) => if fuel == 0 {
            set![n]
        } else {
            walk_set(pm, q, (fuel - 1) as nat).insert(n)
        },
    }
}

/// Walk sets are finite and contain their starting node.
pub proof fn lemma_walk_set_finite(pm: Map<u32, Option<u32>>, n: u32, f: nat)
    ensures
        walk_set(pm, n, f).finite(),
        walk_set(pm, n, f).contains(n),
        walk_set(pm, n, f).len() >= 1,
    decreases f,
{
    match step(pm, n) {
        None => {}
        Some(q) => {
            if f > 0 {
                lemma_walk_set_finite(pm, q, (f - 1) as nat);
            }
        }
    }
}

/// Every node in a walk set is met by the walk.
pub proof fn lemma_walk_set_hits(pm: Map<u32, Option<u32>>, n: u32, x: u32, f: nat)
    requires
        walk_set(pm, n, f).contains(x),
    ensures
        hits(pm, n, x, f),
    decreases f,
{
    if n != x {
        match step(pm, n) {
            None => {}
            Some(q) => {
                if f > 0 {
                    lemma_walk_set_hits(pm, q, x, (f - 1) as nat);
                }
            }
        }
    }
}

/// When every parent reference leads back into the map's domain, a walk
/// starting in the domain stays in it.
pub proof fn lemma_walk_set_in_dom(pm: Map<u32, Option<u32>>, n: u32, f: nat)
    requires
        forall|k: u32| #[trigger]
            pm.dom().contains(k) ==> match pm[k] {
                None => true,
                Some(p) => pm.dom().contains(p),
            },
        pm.dom().contains(n),
    ensures
        walk_set(pm, n, f).subset_of(pm.dom()),
    decreases f,
{
    match step(pm, n) {
        None => {}
        Some(q) => {
            if f > 0 {
                lemma_walk_set_in_dom(pm, q, (f - 1) as nat);
            }
        }
    }
}

/// A terminating walk visits each node once, so its own visited count is
/// fuel enough for it.
pub proof fn lemma_reach_within_walk_set(pm: Map<u32, Option<u32>>, n: u32, f: nat)
    requires
        reaches_root(pm, n, f),
    ensures
        reaches_root(pm, n, (walk_set(pm, n, f).len() - 1) as nat),
    decreases f,
{
    lemma_walk_set_finite(pm, n, f);
    match step(pm, n) {
        None => {}
        Some(q) => {
            lemma_reach_within_walk_set(pm, q, (f - 1) as nat);
            lemma_walk_set_finite(pm, q, (f - 1) as nat);
            if walk_set(pm, q, (f - 1) as nat).contains(n) {
                lemma_walk_set_hits(pm, q, n, (f - 1) as nat);
                lemma_no_self_hit(pm, n, q, f, (f - 1) as nat);
            }
            assert(walk_set(pm, n, f).len() == walk_set(pm, q, (f - 1) as nat).len() + 1);
        }
    }
}

/// A terminating walk from a domain node ends within as many steps as the
/// domain has nodes, provided parent references stay inside the domain.
pub proof fn lemma_reach_within_dom(pm: Map<u32, Option<u32>>, n: u32, f: nat)
    requires
        reaches_root(pm, n, f),
        pm.dom().finite(),
        pm.dom().contains(n),
        forall|k: u32| #[trigger]
            pm.dom().contains(k) ==> match pm[k] {
                None => true,
                Some(p) => pm.dom().contains(p),
            },
    ensures
        reaches_root(pm, n, pm.dom().len()),
{
    lemma_reach_within_walk_set(pm, n, f);
    lemma_walk_set_finite(pm, n, f);
    lemma_walk_set_in_dom(pm, n, f);
    vstd::set_lib::lemma_len_subset(walk_set(pm, n, f), pm.dom());
    lemma_reaches_root_monotone(
        pm,
        n,
        (walk_set(pm, n, f).len() - 1) as nat,
        pm.dom().len(),
    );
}

/// Re-pointing `id` does not disturb a walk that ends without meeting `id`.
pub proof fn lemma_reaches_root_insert_avoid(
    pm: Map<u32, Option<u32>>,
    id: u32,
    np: Option<u32>,
    n: u32,
    f: nat,
)
    requires
        reaches_root(pm, n, f),
        !hits(pm, n, id, f),
    ensures
        reaches_root(pm.insert(id, np), n, f),
    decreases f,
{
    match step(pm, n) {
        None => {}
        Some(q) => {
            lemma_reaches_root_insert_avoid(pm, id, np, q, (f - 1) as nat);
        }
    }
}

/// After re-pointing `id` to a parent that already reaches a root in the
/// new map, every walk that ended in the old map still ends, with the
/// fuels added.
pub proof fn lemma_reaches_root_after_insert(
    pm: Map<u32, Option<u32>>,
    id: u32,
    np: Option<u32>,
    n: u32,
    f: nat,
    c: nat,
)
    requires
        reaches_root(pm, n, f),
        reaches_root(pm.insert(id, np), id, c),
    ensures
        reaches_root(pm.insert(id, np), n, f + c),
    decreases f,
{
    if n == id {
        lemma_reaches_root_monotone(pm.insert(id, np), id, c, f + c);
    } else {
        match step(pm, n) {
            None => {}
            Some(q) => {
                lemma_reaches_root_after_insert(pm, id, np, q, (f - 1) as nat, c);
            }
        }
    }
}

} // verus!
