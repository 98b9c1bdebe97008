use vstd::prelude::*;
use crate::components::{SimpleWorldOrigin, WorldOrigin};
use crate::hierarchy::{DEntity, DWorld};

verus! {

/// The pinned entity `e` exists in `es`.
pub open spec fn pin_present<T>(es: Seq<Option<DEntity<T>>>, e: usize) -> bool {
    (e as int) < es.len() && es[e as int] is Some
}

/// Resolution of `origin` against the entities `es` took the cached origin
/// from `before` to `after` and reported `ok`.
pub open spec fn origin_resolved<T, V, F: Fn(T) -> V>(
    origin: WorldOrigin<V>,
    es: Seq<Option<DEntity<T>>>,
    before: SimpleWorldOrigin<V>,
    after: SimpleWorldOrigin<V>,
    ok: bool,
    translation: F,
) -> bool {
    match origin {
        WorldOrigin::Position(p) => ok && after.origin == p,
        WorldOrigin::Entity(e) => if pin_present(es, e) {
            ok && call_ensures(translation, (es[e as int].unwrap().global,), after.origin)
        } else {
            !ok && after == before
        },
    }
}

/// Recomputes the cached origin: a fixed position is taken as it is; a
/// pinned entity gives the translation of its world transform. Where the
/// pinned entity is gone, the previous origin is kept and `false` returned.
pub fn convert_world_origin<T: Copy, V: Copy, F: Fn(T) -> V>(
    origin: &WorldOrigin<V>,
    world: &DWorld<T>,
    resolved: &mut SimpleWorldOrigin<V>,
    translation: &F,
) -> (ok: bool)
    requires
        forall|t: T| call_requires(*translation, (t,)),
    ensures
        origin_resolved(*origin, world.entities@, *old(resolved), *final(resolved), ok, *translation),
{
    match origin {
        WorldOrigin::Position(p) => {
            resolved.origin = *p;
            true
        },
        WorldOrigin::Entity(e) => {
            if *e < world.entities.len() {
                match world.entities[*e] {
                    Some(ent) => {
                        resolved.origin = translation(ent.global);
                        true
                    },
                    None => false,
                }
            } else {
                false
            }
        },
    }
}

} // verus!
