//! The descriptor returned by overlay lookup: where in the global tree, and at
//! what byte offset and width, a symbolic path lands.
use vstd::prelude::*;

verus! {

use crate::NodeIndex;
use crate::path::{PathElement, PathElementView};

/// Represents any valid node value.
#[derive(Clone, Debug, PartialEq)]
pub struct Node {
    /// Global tree index of the chunk that contains the addressed bytes.
    pub index: NodeIndex,
    /// The original terminal path element, kept for diagnostics.
    pub ident: PathElement,
    /// Width in bytes of the addressed value.
    pub size: u8,
    /// Byte offset within the chunk; non-zero only for packed primitives.
    pub offset: u8,
    /// Height of the subtree rooted at `index` when the value is composite.
    pub height: u64,
    /// Whether the subtree rooted at `index` is a variable-length list.
    pub is_list: bool,
}

/// The mathematical value of a `Node`.
pub struct NodeView {
    pub index: u64,
    pub ident: PathElementView,
    pub size: u8,
    pub offset: u8,
    pub height: u64,
    pub is_list: bool,
}

impl View for Node {
    type V = NodeView;

    open spec fn view(&self) -> NodeView {
        NodeView {
            index: self.index,
            ident: self.ident@,
            size: self.size,
            offset: self.offset,
            height: self.height,
            is_list: self.is_list,
        }
    }
}

} // verus!
