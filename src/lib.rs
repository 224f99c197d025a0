//! Verified core of a progressive Monte Carlo path tracer: the bounding volume
//! hierarchy's construction and traversal, the progressive sampler's decisions,
//! pixel and kernel indexing, and OBJ face parsing.

pub mod bvh;
pub mod camera;
pub mod config;
pub mod filter;
pub mod loader;
pub mod math;
pub mod renderer;
pub mod scene;
pub mod sort;
pub mod texture;
pub mod tonemap;
