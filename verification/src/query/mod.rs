//! Geometric queries for ray tracing: the world's objects and lights, and the objects a ray is
//! inside of.

pub mod containers;
pub mod world;

pub use containers::Containers;
pub use world::{ObjectHandle, World};
