use vstd::prelude::*;

verus! {

/// Where the logical coordinate origin sits.
#[derive(Clone, Copy, Debug)]
pub enum WorldOrigin<V> {
    /// The origin follows the world translation of this entity.
    Entity(usize),
    /// The origin is this fixed world point.
    Position(V),
}

/// The origin actually used when projecting for rendering this frame.
#[derive(Clone, Copy, Debug)]
pub struct SimpleWorldOrigin<V> {
    pub origin: V,
}

impl<V: Copy> WorldOrigin<V> {
    /// The origin state a world starts with: fixed at `zero`, the caller's
    /// zero vector.
    pub fn fixed_at_zero(zero: V) -> (r: Self)
        ensures
            r == WorldOrigin::Position(zero),
    {
        WorldOrigin::Position(zero)
    }
}

impl<V: Copy> SimpleWorldOrigin<V> {
    /// The resolved origin a world starts with: `zero`, the caller's zero
    /// vector.
    pub fn at_zero(zero: V) -> (r: Self)
        ensures
            r.origin == zero,
    {
        SimpleWorldOrigin { origin: zero }
    }
}

/// A local transform together with the world transform computed from it.
#[derive(Clone, Copy, Debug)]
pub struct DTransformBundle<T> {
    /// The transform of the entity relative to its parent.
    pub local: T,
    /// The transform of the entity in world space.
    pub global: T,
}

impl<T: Copy> DTransformBundle<T> {
    /// A bundle holding `transform` as its local transform and `identity` as
    /// its world transform, to be settled by the next propagation.
    pub fn from_transform(transform: T, identity: T) -> (r: Self)
        ensures
            r.local == transform,
            r.global == identity,
    {
        DTransformBundle { local: transform, global: identity }
    }
}

/// Labels of the passes that keep transforms settled.
#[derive(Clone, Copy, Debug, PartialEq, Eq, Hash)]
pub enum DTransformSystem {
    /// Propagates changes of local transforms into world transforms.
    TransformPropagate,
}

} // verus!
