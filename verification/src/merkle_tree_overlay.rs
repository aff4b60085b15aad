//! The type overlay: every supported type answers, for a symbolic path, the
//! question of where in the global tree the addressed bytes live.
use vstd::prelude::*;

pub mod impls;

verus! {

use crate::error::{Error, ErrorView};
use crate::node::{Node, NodeView};
use crate::path::{PathElement, PathElementView};
use crate::tree_arithmetic::depth_of;

/// The mathematical value of an overlay lookup result.
pub open spec fn node_result_view(r: Result<Node, Error>) -> Result<NodeView, ErrorView> {
    match r {
        Ok(n) => Ok(n@),
        Err(e) => Err(e@),
    }
}

/// Defines an interface for resolving symbolic paths against a type's
/// merkle-tree layout.
///
/// The `spec_` functions are the mathematical description of the layout;
/// the executable functions are proved to agree with them.  `spec_fits`
/// bounds the tree so that every index the overlay can produce fits in the
/// 64-bit generalized index space.
pub trait MerkleTreeOverlay {
    /// The height of the type's merkle subtree: 0 for values that live
    /// inside a single chunk, and one level more than the data tree for
    /// variable-length lists, whose root mixes in the length.
    spec fn spec_height() -> u64;

    /// The minimum number of bytes needed to represent the type's value:
    /// the byte width for primitives, 32 for composites taller than one
    /// chunk.
    spec fn spec_min_repr_size() -> u64;

    /// Whether the type is a variable-length list.
    spec fn spec_is_list() -> bool;

    /// A bound on the depth of every tree index this overlay can return.
    spec fn spec_depth() -> u64;

    /// The type's tree is small enough that all overlay arithmetic stays
    /// inside 64-bit tree indices.
    spec fn spec_fits() -> bool;

    /// The descriptor for a symbolic path, or the error that rejects it.
    spec fn spec_get_node(path: Seq<PathElementView>) -> Result<NodeView, ErrorView>;

    /// The basic shape facts every overlay obeys.
    proof fn lemma_overlay_wf()
        requires
            Self::spec_fits(),
        ensures
            1 <= Self::spec_min_repr_size() <= 32,
            Self::spec_height() > 0 ==> Self::spec_min_repr_size() == 32,
            Self::spec_height() <= Self::spec_depth(),
            Self::spec_depth() <= 62,
    ;

    /// Every descriptor the overlay returns addresses a slice inside one
    /// 32-byte chunk, at a tree index within the type's depth bound.
    proof fn lemma_node_bounds(path: Seq<PathElementView>)
        requires
            Self::spec_fits(),
        ensures
            match Self::spec_get_node(path) {
                Ok(n) => depth_of(n.index as int) <= Self::spec_depth() && n.offset + n.size
                    <= 32,
                Err(_) => true,
            },
    ;

    /// Returns the height of the merkle tree.
    fn height() -> (r: u64)
        requires
            Self::spec_fits(),
        ensures
            r == Self::spec_height(),
    ;

    /// Returns the minimum number of bytes needed to represent the type's
    /// value.
    fn min_repr_size() -> (r: u64)
        requires
            Self::spec_fits(),
        ensures
            r == Self::spec_min_repr_size(),
    ;

    /// Returns whether this trait is implemented on an SSZ dynamic list.
    fn is_list() -> (r: bool)
        ensures
            r == Self::spec_is_list(),
    ;

    /// Returns the `Node` corresponding to the `path`.
    ///
    /// This matches `path[0]` against the current object and recursively
    /// resolves the rest of the path in the matched field's type, shifting
    /// the returned index into this tree's index space.
    fn get_node(path: Vec<PathElement>) -> (r: Result<Node, Error>)
        requires
            Self::spec_fits(),
        ensures
            node_result_view(r) == Self::spec_get_node(path.deep_view()),
    ;
}

} // verus!
