//! A sparse voxel octree held in a flat arena, its generators, and the
//! resolution of face neighbours ("ropes") for every node.

pub mod node;
pub mod links;
pub mod ways;
pub mod direction;
pub mod rope;
pub mod growth;
pub mod shape;
pub mod octree;
pub mod wall;
pub mod random;
pub mod resolve;
pub mod geometry;
pub mod laws;

pub use node::Node;
pub use octree::Octree;
pub use growth::Chance;
