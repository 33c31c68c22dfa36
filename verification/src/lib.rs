//! A sparse voxel octree over a cubic integer domain of power-of-two side
//! length. Points map to values of an application-defined type; only regions
//! that diverge from a default value are stored. The tree supports point
//! insertion and lookup, region clearing, bottom-up simplification,
//! level-of-detail collapse, and a flat, index-linked snapshot encoding.

mod codec;
mod error;
mod laws;
mod node;
mod octree;
mod octant;
mod vector;

pub use codec::{
    count_nodes, lemma_flatten_round_trip, lemma_tree_matches_unique, snapshot_wf, spec_build,
    spec_flatten, tree_matches, FlatNode,
};
pub use error::Error;
pub use laws::{covers, lemma_fill_run, lemma_fill_step, lemma_simplify_leaf_noop, lemma_uniform_fill, spec_insert_all};
pub use node::{ChildInfo, LeafValue, Node, NodeType};
pub use octant::Octant;
pub use octree::Octree;
pub use vector::Vector3;
