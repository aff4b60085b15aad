//! Marker types standing for SSZ collections.  Only their merkle-tree shape
//! matters to this crate, so a value carries no data: the element type and
//! the capacity are part of the type.
use vstd::prelude::*;

verus! {

use core::marker::PhantomData;

/// A variable-length list holding at most `N` elements of type `T`.  Its
/// merkle tree pairs the data tree with a length chunk under one root.
#[derive(Debug)]
pub struct VariableList<T, const N: u64> {
    _phantom_type: PhantomData<T>,
}

/// A fixed-length vector of `N` elements of type `T`, padded at the chunk
/// level to the next power of two.
#[derive(Debug)]
pub struct FixedVector<T, const N: u64> {
    _phantom_type: PhantomData<T>,
}

} // verus!
