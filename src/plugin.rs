use vstd::prelude::*;
use crate::components::{SimpleWorldOrigin, WorldOrigin};
use crate::hierarchy::{cleared, propagated, DEntity, DWorld, Propagation};
use crate::origin::{convert_world_origin, origin_resolved};
use crate::projection::{projected, sync_f64_f32};

verus! {

/// What one frame produced.
pub struct Frame<R> {
    /// The report of the propagation pass.
    pub propagation: Propagation,
    /// The origin was resolved this frame (`false`: a pinned entity was
    /// missing and the previous origin was kept).
    pub origin_resolved: bool,
    /// Per entity, the transform handed to rendering.
    pub render: Vec<Option<R>>,
}

/// Runs the transform passes of a frame in their required order.
#[derive(Clone, Copy, Debug, Default)]
pub struct DTransformPlugin;

/// One frame took the entities from `before` to `after` and the cached
/// origin from `o_before` to `o_after`, producing `frame`: world transforms
/// were propagated (giving `mid`), then the origin resolved against `mid`,
/// then every entity projected relative to it, then change flags cleared.
pub open spec fn frame_ran<T, V, R, C: Fn(T, T) -> T, G: Fn(T) -> V, P: Fn(T, V) -> R>(
    before: Seq<Option<DEntity<T>>>,
    mid: Seq<Option<DEntity<T>>>,
    after: Seq<Option<DEntity<T>>>,
    origin: WorldOrigin<V>,
    o_before: SimpleWorldOrigin<V>,
    o_after: SimpleWorldOrigin<V>,
    frame: Frame<R>,
    compose: C,
    translation: G,
    project: P,
) -> bool {
    &&& propagated(before, mid, frame.propagation.updated@, frame.propagation.resolved@, compose)
    &&& origin_resolved(origin, mid, o_before, o_after, frame.origin_resolved, translation)
    &&& projected(mid, o_after.origin, frame.render@, project)
    &&& after == cleared(mid)
}

impl DTransformPlugin {
    /// Settles world transforms, resolves the origin against them, projects
    /// every entity for rendering relative to that origin, and finally marks
    /// all changes as observed.
    pub fn run_frame<T: Copy, V: Copy, R, C: Fn(T, T) -> T, G: Fn(T) -> V, P: Fn(T, V) -> R>(
        &self,
        world: &mut DWorld<T>,
        origin: &WorldOrigin<V>,
        resolved: &mut SimpleWorldOrigin<V>,
        compose: &C,
        translation: &G,
        project: &P,
    ) -> (frame: Frame<R>)
        requires
            forall|a: T, b: T| call_requires(*compose, (a, b)),
            forall|t: T| call_requires(*translation, (t,)),
            forall|t: T, v: V| call_requires(*project, (t, v)),
        ensures
            exists|mid: Seq<Option<DEntity<T>>>|
                frame_ran(
                    old(world).entities@,
                    mid,
                    final(world).entities@,
                    *origin,
                    *old(resolved),
                    *final(resolved),
                    frame,
                    *compose,
                    *translation,
                    *project,
                ),
    {
        let propagation = world.propagate_transforms(compose);
        let ghost mid = world.entities@;
        let origin_resolved = convert_world_origin(origin, world, resolved, translation);
        let render = sync_f64_f32(world, resolved, project);
        world.clear_changes();
        let frame = Frame { propagation, origin_resolved, render };
        assert(frame_ran(
            old(world).entities@,
            mid,
            world.entities@,
            *origin,
            *old(resolved),
            *resolved,
            frame,
            *compose,
            *translation,
            *project,
        ));
        frame
    }
}

} // verus!
