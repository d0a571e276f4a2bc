//! Numerical null-model backend for curvature analysis: verified samplers for
//! degree-preserving (configuration-model) and triangle-preserving
//! (triadic-rewire) random graphs, together with the graph primitives they
//! share.

pub mod configuration;
pub mod graph;
mod rng;
pub mod triadic_rewire;
pub mod triangles;
