//! The errors reported when interacting with a proof.
use vstd::prelude::*;

verus! {

use crate::NodeIndex;
use crate::path::{PathElement, PathElementView};

/// An enum of errors that can occur when interacting with a proof.
#[derive(Clone, Debug, PartialEq)]
pub enum Error {
    /// A path element does not name a field or index valid for the current type.
    InvalidPath(PathElement),
    /// A numeric index exceeds the collection's declared capacity.
    IndexOutOfBounds(u64),
    /// The store lacks the chunk needed to satisfy the request.
    ChunkNotLoaded(NodeIndex),
    /// An operation that needs a non-empty path was given an empty one.
    EmptyPath(),
    /// A serialized proof's chunk buffer does not match its index list, or
    /// the bytes handed to a write do not match the addressed width.
    MalformedProof,
}

/// The mathematical value of an `Error`.
pub enum ErrorView {
    InvalidPath(PathElementView),
    IndexOutOfBounds(u64),
    ChunkNotLoaded(u64),
    EmptyPath,
    MalformedProof,
}

impl View for Error {
    type V = ErrorView;

    open spec fn view(&self) -> ErrorView {
        match self {
            Error::InvalidPath(p) => ErrorView::InvalidPath(p@),
            Error::IndexOutOfBounds(i) => ErrorView::IndexOutOfBounds(*i),
            Error::ChunkNotLoaded(i) => ErrorView::ChunkNotLoaded(*i),
            Error::EmptyPath() => ErrorView::EmptyPath,
            Error::MalformedProof => ErrorView::MalformedProof,
        }
    }
}

} // verus!
