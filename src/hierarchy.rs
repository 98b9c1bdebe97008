use vstd::prelude::*;
use crate::components::DTransformBundle;

verus! {

/// One entity of the transform hierarchy.
#[derive(Clone, Copy, Debug)]
pub struct DEntity<T> {
    /// Transform relative to the parent (or to world space for a root).
    pub local: T,
    /// Transform in world space, written only by propagation.
    pub global: T,
    /// Index of the parent entity, if any.
    pub parent: Option<usize>,
    /// The local transform was written since the last propagation.
    pub local_changed: bool,
    /// The hierarchy edge of this entity changed since the last propagation.
    pub parent_changed: bool,
}

/// Entity storage: slot `i` holds entity `i`, or `None` once it is removed.
pub struct DWorld<T> {
    pub entities: Vec<Option<DEntity<T>>>,
}

/// What a propagation pass did, entity by entity.
pub struct Propagation {
    /// The world transform of the entity was recomputed this pass.
    pub updated: Vec<bool>,
    /// The entity's world transform is settled: its chain of parents ends at
    /// a root. Entities on or below a parent cycle stay unresolved.
    pub resolved: Vec<bool>,
}

pub open spec fn changed<T>(e: DEntity<T>) -> bool {
    e.local_changed || e.parent_changed
}

/// The parent of entity `i`, where it refers to an existing entity. A
/// reference to a removed or unknown entity counts as no parent.
pub open spec fn parent_of<T>(es: Seq<Option<DEntity<T>>>, i: int) -> Option<int> {
    if 0 <= i < es.len() && es[i] is Some {
        match es[i].unwrap().parent {
            Some(p) => if (p as int) < es.len() && es[p as int] is Some {
                Some(p as int)
            } else {
                None
            },
            None => None,
        }
    } else {
        None
    }
}

/// Entity `i` names a parent that does not exist.
pub open spec fn dangling<T>(es: Seq<Option<DEntity<T>>>, i: int) -> bool {
    &&& 0 <= i < es.len()
    &&& es[i] is Some
    &&& es[i].unwrap().parent is Some
    &&& parent_of(es, i) is None
}

/// The chain of parents from entity `i` reaches a root within `k` steps.
pub open spec fn rooted<T>(es: Seq<Option<DEntity<T>>>, i: int, k: nat) -> bool
    decreases k,
{
    match parent_of(es, i) {
        None => true,
        Some(p) => k > 0 && rooted(es, p, (k - 1) as nat),
    }
}

/// `b` is `a` with, at most, another world transform.
pub open spec fn same_but_global<T>(a: DEntity<T>, b: DEntity<T>) -> bool {
    &&& b.local == a.local
    &&& b.parent == a.parent
    &&& b.local_changed == a.local_changed
    &&& b.parent_changed == a.parent_changed
}

/// `b` holds the same entities as `a`, with at most other world transforms.
pub open spec fn same_shape<T>(a: Seq<Option<DEntity<T>>>, b: Seq<Option<DEntity<T>>>) -> bool {
    &&& a.len() == b.len()
    &&& forall|i: int|
        0 <= i < a.len() ==> (#[trigger] a[i] is Some) == (b[i] is Some) && (a[i] is Some
            ==> same_but_global(a[i].unwrap(), b[i].unwrap()))
}

pub(crate) proof fn lemma_same_shape_parent<T>(a: Seq<Option<DEntity<T>>>, b: Seq<Option<DEntity<T>>>, i: int)
    requires
        same_shape(a, b),
    ensures
        parent_of(a, i) == parent_of(b, i),
{
    if 0 <= i < a.len() && a[i] is Some {
        if let Some(p) = a[i].unwrap().parent {
            if (p as int) < a.len() {
                assert(a[p as int] is Some == b[p as int] is Some);
            }
        }
    }
}

/// The outcome of propagation for entity `i`, from the entities before
/// (`old`) to the entities after (`new`).
pub open spec fn entry_propagated<T, F: Fn(T, T) -> T>(
    old: Seq<Option<DEntity<T>>>,
    new: Seq<Option<DEntity<T>>>,
    updated: Seq<bool>,
    resolved: Seq<bool>,
    compose: F,
    i: int,
) -> bool {
    match old[i] {
        None => new[i] is None && resolved[i] && !updated[i],
        Some(e) => {
            &&& new[i] is Some
            &&& same_but_global(e, new[i].unwrap())
            &&& match parent_of(old, i) {
                None => {
                    &&& resolved[i]
                    &&& updated[i] == changed(e)
                    &&& new[i].unwrap().global == if updated[i] { e.local } else { e.global }
                },
                Some(p) => if resolved[i] {
                    &&& resolved[p]
                    &&& updated[i] == (changed(e) || updated[p])
                    &&& if updated[i] {
                        call_ensures(compose, (new[p].unwrap().global, e.local), new[i].unwrap().global)
                    } else {
                        new[i].unwrap().global == e.global
                    }
                } else {
                    &&& !resolved[p]
                    &&& !updated[i]
                    &&& new[i].unwrap().global == e.global
                },
            }
        },
    }
}

/// Propagation took `old` to `new`, reporting `updated` and `resolved`.
pub open spec fn propagated<T, F: Fn(T, T) -> T>(
    old: Seq<Option<DEntity<T>>>,
    new: Seq<Option<DEntity<T>>>,
    updated: Seq<bool>,
    resolved: Seq<bool>,
    compose: F,
) -> bool {
    &&& new.len() == old.len()
    &&& updated.len() == old.len()
    &&& resolved.len() == old.len()
    &&& forall|i: int|
        0 <= i < old.len() ==> #[trigger] entry_propagated(old, new, updated, resolved, compose, i)
    &&& forall|i: int|
        0 <= i < old.len() && #[trigger] resolved[i] ==> exists|k: nat| rooted(old, i, k)
}

/// Number of `false` entries.
pub open spec fn count_false(s: Seq<bool>) -> nat
    decreases s.len(),
{
    if s.len() == 0 {
        0
    } else {
        count_false(s.drop_last()) + if s.last() {
            0nat
        } else {
            1nat
        }
    }
}

proof fn lemma_count_false_set(s: Seq<bool>, i: int)
    requires
        0 <= i < s.len(),
        !s[i],
    ensures
        count_false(s.update(i, true)) + 1 == count_false(s),
    decreases s.len(),
{
    let t = s.update(i, true);
    if i == s.len() - 1 {
        assert(t.drop_last() =~= s.drop_last());
    } else {
        assert(t.drop_last() =~= s.drop_last().update(i, true));
        lemma_count_false_set(s.drop_last(), i);
    }
}

proof fn lemma_count_false_zero(s: Seq<bool>)
    requires
        count_false(s) == 0,
    ensures
        forall|k: int| 0 <= k < s.len() ==> #[trigger] s[k],
    decreases s.len(),
{
    if s.len() > 0 {
        lemma_count_false_zero(s.drop_last());
        assert forall|k: int| 0 <= k < s.len() implies #[trigger] s[k] by {
            if k < s.len() - 1 {
                assert(s[k] == s.drop_last()[k]);
            }
        }
    }
}

/// An entity whose chain of parents reaches a root is resolved, where every
/// unresolved entity has an unresolved parent.
pub(crate) proof fn lemma_rooted_resolved<T>(es: Seq<Option<DEntity<T>>>, resolved: Seq<bool>, i: int, k: nat)
    requires
        resolved.len() == es.len(),
        0 <= i < es.len(),
        rooted(es, i, k),
        forall|j: int|
            0 <= j < es.len() && !#[trigger] resolved[j] ==> parent_of(es, j) is Some
                && !resolved[parent_of(es, j).unwrap()],
    ensures
        resolved[i],
    decreases k,
{
    if let Some(p) = parent_of(es, i) {
        lemma_rooted_resolved(es, resolved, p, (k - 1) as nat);
    }
}

impl<T: Copy> DWorld<T> {
    /// The parent of entity `i`, where it refers to an existing entity.
    pub fn valid_parent(&self, i: usize) -> (r: Option<usize>)
        ensures
            match parent_of(self.entities@, i as int) {
                Some(p) => r == Some(p as usize),
                None => r is None,
            },
    {
        if i < self.entities.len() {
            match self.entities[i] {
                Some(e) => match e.parent {
                    Some(p) => if p < self.entities.len() && self.entities[p].is_some() {
                        Some(p)
                    } else {
                        None
                    },
                    None => None,
                },
                None => None,
            }
        } else {
            None
        }
    }

    /// Recomputes world transforms top-down: a root takes its local
    /// transform, a child composes its parent's world transform with its
    /// local transform. An entity is recomputed only where its own local
    /// transform or hierarchy edge changed, or its parent was recomputed in
    /// this pass; every other world transform is left exactly as it was. An
    /// entity naming a parent that does not exist counts as a root; whoever
    /// removes a parent flags the child's edge (as `despawn` does), so that
    /// the child is recomputed once as a root. Entities on or below a parent cycle are left unresolved and
    /// unchanged. Passes over the entities repeat only while some entity is
    /// still unresolved and the last pass resolved one, so entities stored
    /// after their parents take a single pass.
    pub fn propagate_transforms<F: Fn(T, T) -> T>(&mut self, compose: &F) -> (r: Propagation)
        requires
            forall|a: T, b: T| call_requires(*compose, (a, b)),
        ensures
            propagated(old(self).entities@, final(self).entities@, r.updated@, r.resolved@, *compose),
    {
        let ghost old_es = self.entities@;
        let n = self.entities.len();
        let mut updated: Vec<bool> = Vec::new();
        let mut resolved: Vec<bool> = Vec::new();
        let mut j: usize = 0;
        while j < n
            invariant
                n == self.entities.len(),
                j <= n,
                updated@.len() == j,
                resolved@.len() == j,
                forall|i: int| 0 <= i < j ==> !updated@[i] && !resolved@[i],
                count_false(resolved@) == j,
            decreases n - j,
        {
            let ghost before = resolved@;
            updated.push(false);
            resolved.push(false);
            proof {
                assert(resolved@.drop_last() =~= before);
            }
            j = j + 1;
        }
        let mut remaining: usize = n;
        let ghost mut depth: Seq<nat> = Seq::new(n as nat, |i: int| 0nat);
        loop
            invariant
                n == self.entities.len(),
                n == old_es.len(),
                updated@.len() == n,
                resolved@.len() == n,
                depth.len() == n,
                remaining as int == count_false(resolved@),
                same_shape(old_es, self.entities@),
                forall|a: T, b: T| call_requires(*compose, (a, b)),
                forall|i: int| 0 <= i < n && !#[trigger] resolved@[i] ==> self.entities@[i] == old_es[i] && !updated@[i],
                forall|i: int| 0 <= i < n && #[trigger] resolved@[i] ==> entry_propagated(old_es, self.entities@, updated@, resolved@, *compose, i) && rooted(old_es, i, depth[i]),
            ensures
                propagated(old_es, self.entities@, updated@, resolved@, *compose),
            decreases count_false(resolved@),
        {
            let ghost start = resolved@;
            let mut progress = false;
            let mut i: usize = 0;
            while i < n
                invariant
                    n == self.entities.len(),
                    n == old_es.len(),
                    i <= n,
                    updated@.len() == n,
                    resolved@.len() == n,
                    depth.len() == n,
                    remaining as int == count_false(resolved@),
                    same_shape(old_es, self.entities@),
                    forall|a: T, b: T| call_requires(*compose, (a, b)),
                    forall|k: int| 0 <= k < n && !#[trigger] resolved@[k] ==> self.entities@[k] == old_es[k] && !updated@[k],
                    forall|k: int| 0 <= k < n && #[trigger] resolved@[k] ==> entry_propagated(old_es, self.entities@, updated@, resolved@, *compose, k) && rooted(old_es, k, depth[k]),
                    count_false(resolved@) <= count_false(start),
                    progress ==> count_false(resolved@) < count_false(start),
                    !progress ==> resolved@ == start,
                    !progress ==> forall|k: int| 0 <= k < i && !#[trigger] resolved@[k] ==> parent_of(old_es, k) is Some
                        && !resolved@[parent_of(old_es, k).unwrap()],
                decreases n - i,
            {
                if !resolved[i] {
                    let ghost before = resolved@;
                    match self.entities[i] {
                        None => {
                            resolved.set(i, true);
                            progress = true;
                            proof {
                                lemma_count_false_set(before, i as int);
                                depth = depth.update(i as int, 0nat);
                            }
                            remaining = remaining - 1;
                        },
                        Some(e) => {
                            let ch = e.local_changed || e.parent_changed;
                            proof {
                                lemma_same_shape_parent(old_es, self.entities@, i as int);
                            }
                            match self.valid_parent(i) {
                                None => {
                                    if ch {
                                        self.entities.set(i, Some(DEntity { global: e.local, ..e }));
                                    }
                                    updated.set(i, ch);
                                    resolved.set(i, true);
                                    progress = true;
                                    proof {
                                        lemma_count_false_set(before, i as int);
                                        depth = depth.update(i as int, 0nat);
                                    }
                                    remaining = remaining - 1;
                                },
                                Some(p) => {
                                    if resolved[p] {
                                        let up = ch || updated[p];
                                        if up {
                                            let pg = self.entities[p].unwrap().global;
                                            let g = compose(pg, e.local);
                                            self.entities.set(i, Some(DEntity { global: g, ..e }));
                                        }
                                        updated.set(i, up);
                                        resolved.set(i, true);
                                        progress = true;
                                        proof {
                                            lemma_count_false_set(before, i as int);
                                            depth = depth.update(i as int, depth[p as int] + 1);
                                        }
                                        remaining = remaining - 1;
                                    }
                                },
                            }
                        },
                    }
                }
                i = i + 1;
            }
            if !progress || remaining == 0 {
                proof {
                    if remaining == 0 {
                        lemma_count_false_zero(resolved@);
                    }
                    assert forall|k: int| 0 <= k < n && #[trigger] resolved@[k] implies exists|d: nat| rooted(old_es, k, d) by {
                        assert(rooted(old_es, k, depth[k]));
                    }
                    assert forall|k: int| 0 <= k < n implies
                        #[trigger] entry_propagated(old_es, self.entities@, updated@, resolved@, *compose, k) by {
                        if !resolved@[k] {
                            let p = parent_of(old_es, k).unwrap();
                            assert(!resolved@[p]);
                        }
                    }
                    assert(propagated(old_es, self.entities@, updated@, resolved@, *compose));
                }
                break;
            }
        }
        Propagation { updated, resolved }
    }
}

/// `es` with every change flag cleared.
pub open spec fn cleared<T>(es: Seq<Option<DEntity<T>>>) -> Seq<Option<DEntity<T>>> {
    es.map_values(|o: Option<DEntity<T>>| match o {
        Some(e) => Some(DEntity { local_changed: false, parent_changed: false, ..e }),
        None => None,
    })
}

impl<T: Copy> DWorld<T> {
    /// An empty world.
    pub fn new() -> (r: Self)
        ensures
            r.entities@.len() == 0,
    {
        DWorld { entities: Vec::new() }
    }

    /// Adds an entity with the bundle's transforms under `parent`, marked as
    /// changed so that the next propagation settles it. Returns its index.
    pub fn spawn(&mut self, bundle: DTransformBundle<T>, parent: Option<usize>) -> (id: usize)
        requires
            old(self).entities@.len() < usize::MAX,
        ensures
            id == old(self).entities@.len(),
            final(self).entities@ == old(self).entities@.push(
                Some(
                    DEntity {
                        local: bundle.local,
                        global: bundle.global,
                        parent,
                        local_changed: true,
                        parent_changed: true,
                    },
                ),
            ),
    {
        let id = self.entities.len();
        self.entities.push(
            Some(
                DEntity {
                    local: bundle.local,
                    global: bundle.global,
                    parent,
                    local_changed: true,
                    parent_changed: true,
                },
            ),
        );
        id
    }

    /// Writes the local transform of entity `id` and marks it changed.
    /// Returns `false`, changing nothing, where the entity does not exist.
    pub fn set_local(&mut self, id: usize, local: T) -> (ok: bool)
        ensures
            ok == ((id as int) < old(self).entities@.len() && old(self).entities@[id as int] is Some),
            ok ==> final(self).entities@ == old(self).entities@.update(
                id as int,
                Some(DEntity { local, local_changed: true, ..old(self).entities@[id as int].unwrap() }),
            ),
            !ok ==> final(self).entities@ == old(self).entities@,
    {
        if id < self.entities.len() {
            match self.entities[id] {
                Some(e) => {
                    self.entities.set(id, Some(DEntity { local, local_changed: true, ..e }));
                    true
                },
                None => false,
            }
        } else {
            false
        }
    }

    /// Sets the parent of entity `id` and marks its hierarchy edge changed.
    /// Returns `false`, changing nothing, where the entity does not exist.
    pub fn set_parent(&mut self, id: usize, parent: Option<usize>) -> (ok: bool)
        ensures
            ok == ((id as int) < old(self).entities@.len() && old(self).entities@[id as int] is Some),
            ok ==> final(self).entities@ == old(self).entities@.update(
                id as int,
                Some(DEntity { parent, parent_changed: true, ..old(self).entities@[id as int].unwrap() }),
            ),
            !ok ==> final(self).entities@ == old(self).entities@,
    {
        if id < self.entities.len() {
            match self.entities[id] {
                Some(e) => {
                    self.entities.set(id, Some(DEntity { parent, parent_changed: true, ..e }));
                    true
                },
                None => false,
            }
        } else {
            false
        }
    }

    /// Removes entity `id`. Its children lose their parent, so their
    /// hierarchy edges are marked changed. Returns whether it existed.
    pub fn despawn(&mut self, id: usize) -> (ok: bool)
        ensures
            ok == ((id as int) < old(self).entities@.len() && old(self).entities@[id as int] is Some),
            final(self).entities@.len() == old(self).entities@.len(),
            forall|i: int|
                0 <= i < old(self).entities@.len() ==> #[trigger] final(self).entities@[i] == if i == id as int {
                    None
                } else {
                    match old(self).entities@[i] {
                        Some(e) => if e.parent == Some(id) {
                            Some(DEntity { parent_changed: true, ..e })
                        } else {
                            Some(e)
                        },
                        None => None,
                    }
                },
    {
        let n = self.entities.len();
        let ok = id < n && self.entities[id].is_some();
        let ghost before = self.entities@;
        let mut i: usize = 0;
        while i < n
            invariant
                n == self.entities.len(),
                n == before.len(),
                i <= n,
                forall|k: int|
                    0 <= k < n ==> #[trigger] self.entities@[k] == if k >= i || k == id as int {
                        before[k]
                    } else {
                        match before[k] {
                            Some(e) => if e.parent == Some(id) {
                                Some(DEntity { parent_changed: true, ..e })
                            } else {
                                Some(e)
                            },
                            None => None,
                        }
                    },
            decreases n - i,
        {
            if i != id {
                match self.entities[i] {
                    Some(e) => {
                        if e.parent == Some(id) {
                            self.entities.set(i, Some(DEntity { parent_changed: true, ..e }));
                        }
                    },
                    None => {},
                }
            }
            i = i + 1;
        }
        if ok {
            self.entities.set(id, None);
        }
        ok
    }

    /// Marks every entity as observed: all change flags are cleared.
    pub fn clear_changes(&mut self)
        ensures
            final(self).entities@ == cleared(old(self).entities@),
    {
        let n = self.entities.len();
        let ghost before = self.entities@;
        let mut i: usize = 0;
        while i < n
            invariant
                n == self.entities.len(),
                n == before.len(),
                i <= n,
                forall|k: int|
                    0 <= k < n ==> #[trigger] self.entities@[k] == if k < i {
                        cleared(before)[k]
                    } else {
                        before[k]
                    },
            decreases n - i,
        {
            match self.entities[i] {
                Some(e) => {
                    self.entities.set(i, Some(DEntity { local_changed: false, parent_changed: false, ..e }));
                },
                None => {},
            }
            i = i + 1;
        }
        assert(self.entities@ =~= cleared(before));
    }

    /// The entities whose parent reference names a removed or unknown
    /// entity, in increasing order. Propagation treats them as roots.
    pub fn dangling_parents(&self) -> (r: Vec<usize>)
        ensures
            forall|a: int, b: int| 0 <= a < b < r@.len() ==> r@[a] < r@[b],
            forall|k: int| 0 <= k < r@.len() ==> dangling(self.entities@, #[trigger] r@[k] as int),
            forall|i: int| 0 <= i < self.entities@.len() && #[trigger] dangling(self.entities@, i) ==> r@.contains(i as usize),
    {
        let n = self.entities.len();
        let mut r: Vec<usize> = Vec::new();
        let mut i: usize = 0;
        while i < n
            invariant
                n == self.entities.len(),
                i <= n,
                forall|a: int, b: int| 0 <= a < b < r@.len() ==> r@[a] < r@[b],
                forall|k: int| 0 <= k < r@.len() ==> r@[k] < i && dangling(self.entities@, #[trigger] r@[k] as int),
                forall|j: int| 0 <= j < i && #[trigger] dangling(self.entities@, j) ==> r@.contains(j as usize),
            decreases n - i,
        {
            let is_dangling = match self.entities[i] {
                Some(e) => e.parent.is_some() && self.valid_parent(i).is_none(),
                None => false,
            };
            if is_dangling {
                let ghost before = r@;
                r.push(i);
                proof {
                    assert forall|j: int| 0 <= j < i && #[trigger] dangling(self.entities@, j) implies r@.contains(j as usize) by {
                        let w = choose|w: int| 0 <= w < before.len() && before[w] == j as usize;
                        assert(r@[w] == j as usize);
                    }
                    assert(r@[before.len() as int] == i);
                }
            }
            i = i + 1;
        }
        r
    }

    /// The world transform of entity `id`, if it exists.
    pub fn global(&self, id: usize) -> (r: Option<T>)
        ensures
            r == if (id as int) < self.entities@.len() && self.entities@[id as int] is Some {
                Some(self.entities@[id as int].unwrap().global)
            } else {
                None
            },
    {
        if id < self.entities.len() {
            match self.entities[id] {
                Some(e) => Some(e.global),
                None => None,
            }
        } else {
            None
        }
    }

    /// The local transform of entity `id`, if it exists.
    pub fn local(&self, id: usize) -> (r: Option<T>)
        ensures
            r == if (id as int) < self.entities@.len() && self.entities@[id as int] is Some {
                Some(self.entities@[id as int].unwrap().local)
            } else {
                None
            },
    {
        if id < self.entities.len() {
            match self.entities[id] {
                Some(e) => Some(e.local),
                None => None,
            }
        } else {
            None
        }
    }
}

} // verus!
