//! Half-edge mesh topology operations with machine-checked contracts.
//!
//! The mesh is an index-based half-edge structure; floating-point geometry
//! (positions, normals) is carried as raw IEEE-754 bit patterns so that the
//! topological logic can be stated and proved over integers.

pub mod ids;
pub mod mesh;
pub mod fxhash;
pub mod text;
pub mod orient;
pub mod repair;
pub mod planar_walk;
pub mod push_pull;
pub mod self_intersect;
pub mod offset;
pub mod primitives;
pub mod ring;
pub mod components;
pub mod perimeter;
pub mod p7_manifold;
pub mod wire;
pub mod extrude;
pub mod p7_canonical_resolver;
pub mod smooth_group;
pub mod move_only;
pub mod revolve;
pub mod solids;
pub mod closed;
