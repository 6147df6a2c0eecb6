//! Collision shapes supported by the ray tracer.
//!
//! The unit sphere, the unit cube and the `xz` plane have no parameters of their own; an object
//! positions and sizes them with a transformation.

use vstd::prelude::*;

verus! {

/// Traits common to all shapes.
pub trait Shape: 'static + core::fmt::Debug + Send + Sync {}

/// The unit cube, centered on the origin and extending from -1 to 1 along each axis.
#[derive(Debug, Clone, Copy, PartialEq, Eq, Structural)]
pub struct Cube;

impl Shape for Cube {}

/// A plane extending on `xz`.
#[derive(Debug, Clone, Copy, PartialEq, Eq, Structural)]
pub struct Plane;

impl Shape for Plane {}

/// The unit sphere, centered on the origin.
#[derive(Debug, Clone, Copy, PartialEq, Eq, Structural)]
pub struct Sphere;

impl Shape for Sphere {}

} // verus!
