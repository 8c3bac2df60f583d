//! Core of a Monte Carlo path tracer: the integer-valued logic that drives
//! rendering, proved with Verus. Geometry, materials and radiance arithmetic
//! are floating point and live in the application around this library.

pub mod background;
pub mod bvh;
pub mod disc;
pub mod integrator;
pub mod random;
pub mod summary;
