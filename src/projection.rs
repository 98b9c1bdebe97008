use vstd::prelude::*;
use crate::components::SimpleWorldOrigin;
use crate::hierarchy::{DEntity, DWorld};

verus! {

/// `out` holds, for each existing entity of `es`, its world transform
/// projected relative to `origin`, and nothing for a removed one.
pub open spec fn projected<T, V, R, F: Fn(T, V) -> R>(
    es: Seq<Option<DEntity<T>>>,
    origin: V,
    out: Seq<Option<R>>,
    project: F,
) -> bool {
    &&& out.len() == es.len()
    &&& forall|i: int|
        0 <= i < es.len() ==> match #[trigger] es[i] {
            None => out[i] is None,
            Some(e) => out[i] is Some && call_ensures(project, (e.global, origin), out[i].unwrap()),
        }
}

/// Projects every entity's world transform for rendering, relative to the
/// resolved origin: each existing entity's full-precision world transform
/// and the origin are handed to `project` together, in one call. The caller's
/// `project` is expected to subtract the origin from the translation before
/// narrowing, so that render coordinates stay near zero.
pub fn sync_f64_f32<T: Copy, V: Copy, R, F: Fn(T, V) -> R>(
    world: &DWorld<T>,
    origin: &SimpleWorldOrigin<V>,
    project: &F,
) -> (out: Vec<Option<R>>)
    requires
        forall|t: T, v: V| call_requires(*project, (t, v)),
    ensures
        projected(world.entities@, origin.origin, out@, *project),
{
    let n = world.entities.len();
    let mut out: Vec<Option<R>> = Vec::new();
    let mut i: usize = 0;
    while i < n
        invariant
            n == world.entities.len(),
            i <= n,
            out@.len() == i,
            forall|t: T, v: V| call_requires(*project, (t, v)),
            forall|k: int|
                0 <= k < i ==> match #[trigger] world.entities@[k] {
                    None => out@[k] is None,
                    Some(e) => out@[k] is Some && call_ensures(*project, (e.global, origin.origin), out@[k].unwrap()),
                },
        decreases n - i,
    {
        match world.entities[i] {
            Some(e) => out.push(Some(project(e.global, origin.origin))),
            None => out.push(None),
        }
        i = i + 1;
    }
    out
}

} // verus!
