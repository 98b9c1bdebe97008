use vstd::prelude::*;
use crate::hierarchy::{
    changed, entry_propagated, lemma_rooted_resolved, lemma_same_shape_parent, parent_of,
    propagated, rooted, same_shape, DEntity,
};

verus! {

/// Entity `i` agrees with its parent: a root's world transform is its local
/// transform, a child's is its parent's world transform composed with its
/// local transform.
pub open spec fn consistent_at<T, F: Fn(T, T) -> T>(es: Seq<Option<DEntity<T>>>, i: int, compose: F) -> bool {
    es[i] is Some ==> match parent_of(es, i) {
        None => es[i].unwrap().global == es[i].unwrap().local,
        Some(p) => call_ensures(compose, (es[p].unwrap().global, es[i].unwrap().local), es[i].unwrap().global),
    }
}

/// Every entity whose chain of parents reaches a root agrees with its parent.
pub open spec fn consistent<T, F: Fn(T, T) -> T>(es: Seq<Option<DEntity<T>>>, compose: F) -> bool {
    forall|i: int, k: nat| 0 <= i < es.len() && #[trigger] rooted(es, i, k) ==> consistent_at(es, i, compose)
}

/// The change flags of `cur` account for every difference from `prev`: an
/// entity with a clear local flag kept its local and world transforms, one
/// with a clear edge flag kept its parent and world transform.
pub open spec fn flags_truthful<T>(prev: Seq<Option<DEntity<T>>>, cur: Seq<Option<DEntity<T>>>) -> bool {
    forall|i: int|
        0 <= i < cur.len() && (#[trigger] cur[i]) is Some ==> {
            let e = cur[i].unwrap();
            &&& !e.local_changed ==> i < prev.len() && prev[i] is Some && prev[i].unwrap().local == e.local
                && prev[i].unwrap().global == e.global
            &&& !e.parent_changed ==> i < prev.len() && prev[i] is Some && parent_of(prev, i) == parent_of(cur, i)
                && prev[i].unwrap().global == e.global
        }
}

proof fn lemma_propagated_shape<T, F: Fn(T, T) -> T>(
    old: Seq<Option<DEntity<T>>>,
    new: Seq<Option<DEntity<T>>>,
    updated: Seq<bool>,
    resolved: Seq<bool>,
    compose: F,
)
    requires
        propagated(old, new, updated, resolved, compose),
    ensures
        same_shape(old, new),
        forall|j: int|
            0 <= j < old.len() && !#[trigger] resolved[j] ==> parent_of(old, j) is Some
                && !resolved[parent_of(old, j).unwrap()],
{
    assert forall|i: int| 0 <= i < old.len() implies (#[trigger] old[i] is Some) == (new[i] is Some) && (old[i] is Some
        ==> crate::hierarchy::same_but_global(old[i].unwrap(), new[i].unwrap())) by {
        assert(entry_propagated(old, new, updated, resolved, compose, i));
    }
    assert forall|j: int| 0 <= j < old.len() && !#[trigger] resolved[j] implies parent_of(old, j) is Some
        && !resolved[parent_of(old, j).unwrap()] by {
        assert(entry_propagated(old, new, updated, resolved, compose, j));
    }
}

proof fn lemma_rooted_same_shape<T>(a: Seq<Option<DEntity<T>>>, b: Seq<Option<DEntity<T>>>, i: int, k: nat)
    requires
        same_shape(a, b),
        rooted(a, i, k),
    ensures
        rooted(b, i, k),
    decreases k,
{
    lemma_same_shape_parent(a, b, i);
    if let Some(p) = parent_of(a, i) {
        lemma_rooted_same_shape(a, b, p, (k - 1) as nat);
    }
}

proof fn lemma_same_shape_sym<T>(a: Seq<Option<DEntity<T>>>, b: Seq<Option<DEntity<T>>>)
    requires
        same_shape(a, b),
    ensures
        same_shape(b, a),
{
    assert forall|i: int| 0 <= i < b.len() implies (#[trigger] b[i] is Some) == (a[i] is Some) && (b[i] is Some
        ==> crate::hierarchy::same_but_global(b[i].unwrap(), a[i].unwrap())) by {
        assert(a[i] is Some == b[i] is Some);
    }
}

/// After a propagation in which every entity counts as changed (as on the
/// first frame), every entity whose chain of parents reaches a root agrees
/// with its parent: a root's world transform is its local transform, and a
/// child's is its parent's world transform composed with its local one.
pub proof fn lemma_fresh_frame_consistent<T, F: Fn(T, T) -> T>(
    old: Seq<Option<DEntity<T>>>,
    new: Seq<Option<DEntity<T>>>,
    updated: Seq<bool>,
    resolved: Seq<bool>,
    compose: F,
)
    requires
        propagated(old, new, updated, resolved, compose),
        forall|i: int| 0 <= i < old.len() && (#[trigger] old[i]) is Some ==> changed(old[i].unwrap()),
    ensures
        consistent(new, compose),
{
    lemma_propagated_shape(old, new, updated, resolved, compose);
    lemma_same_shape_sym(old, new);
    assert forall|i: int, k: nat| 0 <= i < new.len() && #[trigger] rooted(new, i, k) implies consistent_at(
        new,
        i,
        compose,
    ) by {
        lemma_rooted_same_shape(new, old, i, k);
        lemma_rooted_resolved(old, resolved, i, k);
        lemma_same_shape_parent(old, new, i);
        assert(entry_propagated(old, new, updated, resolved, compose, i));
    }
}

proof fn lemma_unchanged_chain_rooted<T, F: Fn(T, T) -> T>(
    prev: Seq<Option<DEntity<T>>>,
    cur: Seq<Option<DEntity<T>>>,
    new: Seq<Option<DEntity<T>>>,
    updated: Seq<bool>,
    resolved: Seq<bool>,
    compose: F,
    i: int,
    k: nat,
)
    requires
        flags_truthful(prev, cur),
        propagated(cur, new, updated, resolved, compose),
        0 <= i < cur.len(),
        cur[i] is Some,
        resolved[i],
        !updated[i],
        rooted(cur, i, k),
    ensures
        rooted(prev, i, k),
    decreases k,
{
    assert(entry_propagated(cur, new, updated, resolved, compose, i));
    assert(cur[i] is Some);
    if let Some(p) = parent_of(cur, i) {
        lemma_unchanged_chain_rooted(prev, cur, new, updated, resolved, compose, p, (k - 1) as nat);
    }
}

/// Propagation keeps the hierarchy consistent from frame to frame: where the
/// previous frame's entities were consistent and the change flags account
/// for every edit since, the entities after propagation are consistent.
/// Untouched entities keep their world transforms and still agree with
/// their (untouched) parents; recomputed ones agree by construction.
pub proof fn lemma_consistency_preserved<T, F: Fn(T, T) -> T>(
    prev: Seq<Option<DEntity<T>>>,
    cur: Seq<Option<DEntity<T>>>,
    new: Seq<Option<DEntity<T>>>,
    updated: Seq<bool>,
    resolved: Seq<bool>,
    compose: F,
)
    requires
        consistent(prev, compose),
        flags_truthful(prev, cur),
        propagated(cur, new, updated, resolved, compose),
    ensures
        consistent(new, compose),
{
    lemma_propagated_shape(cur, new, updated, resolved, compose);
    lemma_same_shape_sym(cur, new);
    assert forall|i: int, k: nat| 0 <= i < new.len() && #[trigger] rooted(new, i, k) implies consistent_at(
        new,
        i,
        compose,
    ) by {
        lemma_rooted_same_shape(new, cur, i, k);
        lemma_rooted_resolved(cur, resolved, i, k);
        lemma_same_shape_parent(cur, new, i);
        assert(entry_propagated(cur, new, updated, resolved, compose, i));
        if cur[i] is Some && !updated[i] {
            lemma_unchanged_chain_rooted(prev, cur, new, updated, resolved, compose, i, k);
            assert(rooted(prev, i, k));
            assert(consistent_at(prev, i, compose));
            if let Some(p) = parent_of(cur, i) {
                assert(entry_propagated(cur, new, updated, resolved, compose, p));
                assert(cur[p] is Some);
            }
        }
    }
}

proof fn lemma_unflagged_not_updated<T, F: Fn(T, T) -> T>(
    old: Seq<Option<DEntity<T>>>,
    new: Seq<Option<DEntity<T>>>,
    updated: Seq<bool>,
    resolved: Seq<bool>,
    compose: F,
    i: int,
    k: nat,
)
    requires
        propagated(old, new, updated, resolved, compose),
        forall|j: int| 0 <= j < old.len() && (#[trigger] old[j]) is Some ==> !changed(old[j].unwrap()),
        0 <= i < old.len(),
        rooted(old, i, k),
    ensures
        !updated[i],
    decreases k,
{
    assert(entry_propagated(old, new, updated, resolved, compose, i));
    if let Some(p) = parent_of(old, i) {
        lemma_unflagged_not_updated(old, new, updated, resolved, compose, p, (k - 1) as nat);
    }
}

/// Where nothing changed since the last propagation (no local transform, no
/// hierarchy edge), propagation recomputes nothing and every world transform
/// stays exactly as it was.
pub proof fn lemma_skip_unchanged<T, F: Fn(T, T) -> T>(
    old: Seq<Option<DEntity<T>>>,
    new: Seq<Option<DEntity<T>>>,
    updated: Seq<bool>,
    resolved: Seq<bool>,
    compose: F,
)
    requires
        propagated(old, new, updated, resolved, compose),
        forall|j: int| 0 <= j < old.len() && (#[trigger] old[j]) is Some ==> !changed(old[j].unwrap()),
    ensures
        new == old,
        forall|i: int| 0 <= i < updated.len() ==> !#[trigger] updated[i],
{
    assert forall|i: int| 0 <= i < old.len() implies !updated[i] && #[trigger] new[i] == old[i] by {
        assert(entry_propagated(old, new, updated, resolved, compose, i));
        if resolved[i] {
            let k = choose|k: nat| rooted(old, i, k);
            lemma_unflagged_not_updated(old, new, updated, resolved, compose, i, k);
        }
    }
    assert(new =~= old);
    assert forall|i: int| 0 <= i < updated.len() implies !#[trigger] updated[i] by {
        assert(new[i] == old[i]);
    }
}

} // verus!
