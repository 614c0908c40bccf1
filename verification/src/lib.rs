//! A small Monte-Carlo path tracer over saturating fixed-point
//! arithmetic: vectors and rays, sphere intersection with closest-hit
//! aggregation, diffuse, metallic and dielectric scattering, a thin-lens
//! camera, and the recursive integrator that turns a camera ray into a
//! radiance estimate.

pub mod fixed;
pub mod la;
pub mod objects;
pub mod camera;
pub mod tracer;
