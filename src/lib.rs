//! Double-precision transform propagation with a floating origin.
//!
//! The library is generic over the transform type `T` and the vector type `V`:
//! arithmetic on them (composition, taking a translation, subtracting the
//! origin and narrowing) is supplied by the caller as closures, and the
//! contracts relate every stored result to those closures' postconditions.
pub mod components;
pub mod hierarchy;
pub mod laws;
pub mod origin;
pub mod plugin;
pub mod projection;

pub use components::{DTransformBundle, DTransformSystem, SimpleWorldOrigin, WorldOrigin};
pub use hierarchy::{DEntity, DWorld, Propagation};
pub use origin::convert_world_origin;
pub use plugin::{DTransformPlugin, Frame};
pub use projection::sync_f64_f32;
