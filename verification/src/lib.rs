//! Merkle proof partials: sparse fragments of a binary Merkle tree that carry
//! the leaf chunks needed to authenticate or modify a subset of fields, plus
//! the sibling hashes required to recompute the root.
//!
//! The tree layout follows the SSZ merkleization conventions: every node is a
//! 32-byte chunk in a 0-indexed complete binary tree, fixed vectors are padded
//! to a power of two at the chunk level, and variable lists mix their length
//! into the root.
use vstd::prelude::*;

pub mod backend;
pub mod containers;
mod error;
mod merkle_tree_overlay;
pub mod node;
mod path;
mod proof_engine;
mod ser;
pub mod tree_arithmetic;
pub mod types;

pub use crate::backend::hash_children;
pub use crate::error::{Error, ErrorView};
pub use crate::merkle_tree_overlay::{impls, node_result_view, MerkleTreeOverlay};
pub use crate::path::{PathElement, PathElementView};
pub use crate::proof_engine::Proof;
pub use crate::ser::SerializedProof;

verus! {

/// General index for a node in a merkle tree.
pub type NodeIndex = u64;

/// The number of bytes in a single tree node.
pub const BYTES_PER_CHUNK: usize = 32;

} // verus!
