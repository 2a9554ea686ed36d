//! Manifold dual contouring on an integer sampling lattice: sign grids, the
//! octree of dual vertices and the faces dual to sign-change edges.

pub mod bitset;
pub mod edge;
pub mod vertex_index;
pub mod cell_configs;
pub mod vertex;
pub mod octree;
pub mod sorted;
pub mod counters;
pub mod error;
pub mod value_grid;
pub mod edge_grid;
pub mod leaf;
pub mod face;
pub mod mesh;
pub mod solve;
pub mod quads;
pub mod engine;
pub mod laws;
