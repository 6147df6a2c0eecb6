//! A ray tracer following "The Ray Tracer Challenge": the exact, integer-valued parts.

pub mod math;
pub mod query;
pub mod rendering;
pub mod shape;
