//! Container overlays written out by hand, exactly as the derive facility
//! for user-defined structs would generate them: each field is assigned a
//! leaf chunk (with packed small primitives sharing one chunk at distinct
//! offsets) or a subtree root, and composite fields delegate the rest of
//! the path to their own overlay, shifting the returned index below the
//! field's subtree root.
use vstd::prelude::*;

verus! {

use crate::error::{Error, ErrorView};
use crate::merkle_tree_overlay::impls::{
    chunk_count,
    items_per_chunk,
    lemma_shifted_child_bounds,
    replace_index,
    tail_of,
};
use crate::merkle_tree_overlay::MerkleTreeOverlay;
use crate::node::{Node, NodeView};
use crate::path::{PathElement, PathElementView};
use crate::tree_arithmetic::{clog2, depth_of, spec_subtree_index, subtree_index_to_general};
use crate::types::{FixedVector, VariableList};
use ethereum_types::U256;

/// Four fields over three leaf chunks: `a` and `b` each fill a chunk of
/// their own and the two half-chunk fields `c` and `d` pack into one.
///
/// ```text
///        root(0)
///       /       \
///     i(1)      i(2)
///    /   \      /   \
///  a(3)  b(4) cd(5) pad(6)
/// ```
#[derive(Debug)]
pub struct SimpleStruct {
    pub a: U256,
    pub b: U256,
    pub c: u128,
    pub d: u128,
}

impl MerkleTreeOverlay for SimpleStruct {
    open spec fn spec_height() -> u64 {
        2
    }

    open spec fn spec_min_repr_size() -> u64 {
        32
    }

    open spec fn spec_is_list() -> bool {
        false
    }

    open spec fn spec_depth() -> u64 {
        2
    }

    open spec fn spec_fits() -> bool {
        true
    }

    open spec fn spec_get_node(path: Seq<PathElementView>) -> Result<NodeView, ErrorView> {
        if path.len() == 0 {
            Err(ErrorView::EmptyPath)
        } else {
            match path[0] {
                PathElementView::Ident(s) => {
                    if s == "a"@ {
                        if path.len() == 1 {
                            Ok(
                                NodeView {
                                    ident: path[0],
                                    index: 3,
                                    size: 32,
                                    offset: 0,
                                    height: 0,
                                    is_list: false,
                                },
                            )
                        } else {
                            U256::spec_get_node(path.skip(1))
                        }
                    } else if s == "b"@ {
                        if path.len() == 1 {
                            Ok(
                                NodeView {
                                    ident: path[0],
                                    index: 4,
                                    size: 32,
                                    offset: 0,
                                    height: 0,
                                    is_list: false,
                                },
                            )
                        } else {
                            U256::spec_get_node(path.skip(1))
                        }
                    } else if s == "c"@ {
                        if path.len() == 1 {
                            Ok(
                                NodeView {
                                    ident: path[0],
                                    index: 5,
                                    size: 16,
                                    offset: 0,
                                    height: 0,
                                    is_list: false,
                                },
                            )
                        } else {
                            U256::spec_get_node(path.skip(1))
                        }
                    } else if s == "d"@ {
                        if path.len() == 1 {
                            Ok(
                                NodeView {
                                    ident: path[0],
                                    index: 5,
                                    size: 16,
                                    offset: 16,
                                    height: 0,
                                    is_list: false,
                                },
                            )
                        } else {
                            U256::spec_get_node(path.skip(1))
                        }
                    } else {
                        Err(ErrorView::InvalidPath(path[0]))
                    }
                },
                PathElementView::Index(_) => Err(ErrorView::InvalidPath(path[0])),
            }
        }
    }

    proof fn lemma_overlay_wf() {
    }

    proof fn lemma_node_bounds(path: Seq<PathElementView>) {
        reveal_with_fuel(depth_of, 5);
        if path.len() > 1 {
            assert(path.skip(1).len() >= 1);
        }
    }

    fn height() -> (r: u64) {
        2
    }

    fn min_repr_size() -> (r: u64) {
        32
    }

    fn is_list() -> (r: bool) {
        false
    }

    fn get_node(path: Vec<PathElement>) -> (r: Result<Node, Error>) {
        proof {
            if path@.len() > 0 {
                assert(path.deep_view()[0] == path@[0].deep_view());
            }
        }
        if path.len() == 0 {
            return Err(Error::EmptyPath());
        }
        match &path[0] {
            PathElement::Ident(s) => {
                if *s == "a".to_owned() {
                    if path.len() == 1 {
                        Ok(
                            Node {
                                ident: path[0].clone(),
                                index: 3,
                                size: 32,
                                offset: 0,
                                height: 0,
                                is_list: false,
                            },
                        )
                    } else {
                        U256::get_node(tail_of(&path))
                    }
                } else if *s == "b".to_owned() {
                    if path.len() == 1 {
                        Ok(
                            Node {
                                ident: path[0].clone(),
                                index: 4,
                                size: 32,
                                offset: 0,
                                height: 0,
                                is_list: false,
                            },
                        )
                    } else {
                        U256::get_node(tail_of(&path))
                    }
                } else if *s == "c".to_owned() {
                    if path.len() == 1 {
                        Ok(
                            Node {
                                ident: path[0].clone(),
                                index: 5,
                                size: 16,
                                offset: 0,
                                height: 0,
                                is_list: false,
                            },
                        )
                    } else {
                        U256::get_node(tail_of(&path))
                    }
                } else if *s == "d".to_owned() {
                    if path.len() == 1 {
                        Ok(
                            Node {
                                ident: path[0].clone(),
                                index: 5,
                                size: 16,
                                offset: 16,
                                height: 0,
                                is_list: false,
                            },
                        )
                    } else {
                        U256::get_node(tail_of(&path))
                    }
                } else {
                    Err(Error::InvalidPath(path[0].clone()))
                }
            },
            PathElement::Index(_) => Err(Error::InvalidPath(path[0].clone())),
        }
    }
}

/// Three small primitives packed into the single chunk at the root, at
/// consecutive offsets.
#[derive(Debug)]
pub struct PackedStruct {
    pub a: u8,
    pub b: u16,
    pub c: u32,
}

impl MerkleTreeOverlay for PackedStruct {
    open spec fn spec_height() -> u64 {
        0
    }

    open spec fn spec_min_repr_size() -> u64 {
        7
    }

    open spec fn spec_is_list() -> bool {
        false
    }

    open spec fn spec_depth() -> u64 {
        0
    }

    open spec fn spec_fits() -> bool {
        true
    }

    open spec fn spec_get_node(path: Seq<PathElementView>) -> Result<NodeView, ErrorView> {
        if path.len() == 0 {
            Err(ErrorView::EmptyPath)
        } else {
            match path[0] {
                PathElementView::Ident(s) => {
                    if s == "a"@ && path.len() == 1 {
                        Ok(
                            NodeView {
                                ident: path[0],
                                index: 0,
                                size: 1,
                                offset: 0,
                                height: 0,
                                is_list: false,
                            },
                        )
                    } else if s == "b"@ && path.len() == 1 {
                        Ok(
                            NodeView {
                                ident: path[0],
                                index: 0,
                                size: 2,
                                offset: 1,
                                height: 0,
                                is_list: false,
                            },
                        )
                    } else if s == "c"@ && path.len() == 1 {
                        Ok(
                            NodeView {
                                ident: path[0],
                                index: 0,
                                size: 4,
                                offset: 3,
                                height: 0,
                                is_list: false,
                            },
                        )
                    } else {
                        Err(ErrorView::InvalidPath(path[0]))
                    }
                },
                PathElementView::Index(_) => Err(ErrorView::InvalidPath(path[0])),
            }
        }
    }

    proof fn lemma_overlay_wf() {
    }

    proof fn lemma_node_bounds(path: Seq<PathElementView>) {
    }

    fn height() -> (r: u64) {
        0
    }

    fn min_repr_size() -> (r: u64) {
        7
    }

    fn is_list() -> (r: bool) {
        false
    }

    fn get_node(path: Vec<PathElement>) -> (r: Result<Node, Error>) {
        proof {
            if path@.len() > 0 {
                assert(path.deep_view()[0] == path@[0].deep_view());
            }
        }
        if path.len() == 0 {
            return Err(Error::EmptyPath());
        }
        match &path[0] {
            PathElement::Ident(s) => {
                if *s == "a".to_owned() && path.len() == 1 {
                    Ok(
                        Node {
                            ident: path[0].clone(),
                            index: 0,
                            size: 1,
                            offset: 0,
                            height: 0,
                            is_list: false,
                        },
                    )
                } else if *s == "b".to_owned() && path.len() == 1 {
                    Ok(
                        Node {
                            ident: path[0].clone(),
                            index: 0,
                            size: 2,
                            offset: 1,
                            height: 0,
                            is_list: false,
                        },
                    )
                } else if *s == "c".to_owned() && path.len() == 1 {
                    Ok(
                        Node {
                            ident: path[0].clone(),
                            index: 0,
                            size: 4,
                            offset: 3,
                            height: 0,
                            is_list: false,
                        },
                    )
                } else {
                    Err(Error::InvalidPath(path[0].clone()))
                }
            },
            PathElement::Index(_) => Err(Error::InvalidPath(path[0].clone())),
        }
    }
}

/// The concrete layout parameters of `FixedVector<U256, 4>`.
proof fn lemma_fv_u256_4()
    ensures
        FixedVector::<U256, 4>::spec_fits(),
        FixedVector::<U256, 4>::spec_height() == 2,
        FixedVector::<U256, 4>::spec_depth() == 2,
        FixedVector::<U256, 4>::spec_min_repr_size() == 32,
{
    reveal_with_fuel(clog2, 5);
    assert(items_per_chunk::<U256>() == 1);
    assert(chunk_count::<U256>(4) == 4);
    assert(clog2(4) == 2);
}

/// The concrete layout parameters of `VariableList<u128, 4>`.
proof fn lemma_vl_u128_4()
    ensures
        VariableList::<u128, 4>::spec_fits(),
        VariableList::<u128, 4>::spec_height() == 2,
        VariableList::<u128, 4>::spec_depth() == 2,
        VariableList::<u128, 4>::spec_min_repr_size() == 32,
{
    reveal_with_fuel(clog2, 5);
    assert(items_per_chunk::<u128>() == 2);
    assert(chunk_count::<u128>(4) == 2);
    assert(clog2(2) == 1);
}

/// The concrete layout parameters of `VariableList<u128, 8>`.
proof fn lemma_vl_u128_8()
    ensures
        VariableList::<u128, 8>::spec_fits(),
        VariableList::<u128, 8>::spec_height() == 3,
        VariableList::<u128, 8>::spec_depth() == 3,
        VariableList::<u128, 8>::spec_min_repr_size() == 32,
{
    reveal_with_fuel(clog2, 5);
    assert(items_per_chunk::<u128>() == 2);
    assert(chunk_count::<u128>(8) == 4);
    assert(clog2(4) == 2);
}

/// The concrete layout parameters of `FixedVector<u8, 32>`: thirty-two
/// bytes pack into a single chunk, so the whole vector is one leaf.
proof fn lemma_fv_u8_32()
    ensures
        FixedVector::<u8, 32>::spec_fits(),
        FixedVector::<u8, 32>::spec_height() == 0,
        FixedVector::<u8, 32>::spec_depth() == 0,
        FixedVector::<u8, 32>::spec_min_repr_size() == 32,
{
    reveal_with_fuel(clog2, 5);
    assert(items_per_chunk::<u8>() == 32);
    assert(chunk_count::<u8>(32) == 1);
    assert(clog2(1) == 0);
}

/// A struct holding a single fixed vector; the vector's tree is the whole
/// tree.
///
/// ```text
///        root(0)
///       /       \
///     i(1)      i(2)
///     /  \      /  \
///   a[0] a[1] a[2] a[3]
/// ```
#[derive(Debug)]
pub struct VectorStruct {
    pub a: FixedVector<U256, 4>,
}

impl MerkleTreeOverlay for VectorStruct {
    open spec fn spec_height() -> u64 {
        0
    }

    open spec fn spec_min_repr_size() -> u64 {
        32
    }

    open spec fn spec_is_list() -> bool {
        false
    }

    open spec fn spec_depth() -> u64 {
        2
    }

    open spec fn spec_fits() -> bool {
        true
    }

    open spec fn spec_get_node(path: Seq<PathElementView>) -> Result<NodeView, ErrorView> {
        if path.len() == 0 {
            Err(ErrorView::EmptyPath)
        } else {
            match path[0] {
                PathElementView::Ident(s) => {
                    if s == "a"@ {
                        if path.len() == 1 {
                            Ok(
                                NodeView {
                                    ident: path[0],
                                    index: 0,
                                    size: 32,
                                    offset: 0,
                                    height: FixedVector::<U256, 4>::spec_height(),
                                    is_list: false,
                                },
                            )
                        } else {
                            FixedVector::<U256, 4>::spec_get_node(path.skip(1))
                        }
                    } else {
                        Err(ErrorView::InvalidPath(path[0]))
                    }
                },
                PathElementView::Index(_) => Err(ErrorView::InvalidPath(path[0])),
            }
        }
    }

    proof fn lemma_overlay_wf() {
    }

    proof fn lemma_node_bounds(path: Seq<PathElementView>) {
        lemma_fv_u256_4();
        if path.len() > 1 {
            FixedVector::<U256, 4>::lemma_node_bounds(path.skip(1));
        }
    }

    fn height() -> (r: u64) {
        0
    }

    fn min_repr_size() -> (r: u64) {
        32
    }

    fn is_list() -> (r: bool) {
        false
    }

    fn get_node(path: Vec<PathElement>) -> (r: Result<Node, Error>) {
        proof {
            lemma_fv_u256_4();
            if path@.len() > 0 {
                assert(path.deep_view()[0] == path@[0].deep_view());
            }
        }
        if path.len() == 0 {
            return Err(Error::EmptyPath());
        }
        match &path[0] {
            PathElement::Ident(s) => {
                if *s == "a".to_owned() {
                    if path.len() == 1 {
                        let h = FixedVector::<U256, 4>::height();
                        Ok(
                            Node {
                                ident: path[0].clone(),
                                index: 0,
                                size: 32,
                                offset: 0,
                                height: h,
                                is_list: false,
                            },
                        )
                    } else {
                        FixedVector::<U256, 4>::get_node(tail_of(&path))
                    }
                } else {
                    Err(Error::InvalidPath(path[0].clone()))
                }
            },
            PathElement::Index(_) => Err(Error::InvalidPath(path[0].clone())),
        }
    }
}

/// A struct holding a single variable-length list; the list's tree is the
/// whole tree.
///
/// ```text
///           root(0)
///          /       \
///    data_root(1) len(2)
///      /     \
/// a[0,1](3) a[2,3](4)
/// ```
#[derive(Debug)]
pub struct ListStruct {
    pub a: VariableList<u128, 4>,
}

impl MerkleTreeOverlay for ListStruct {
    open spec fn spec_height() -> u64 {
        0
    }

    open spec fn spec_min_repr_size() -> u64 {
        32
    }

    open spec fn spec_is_list() -> bool {
        true
    }

    open spec fn spec_depth() -> u64 {
        2
    }

    open spec fn spec_fits() -> bool {
        true
    }

    open spec fn spec_get_node(path: Seq<PathElementView>) -> Result<NodeView, ErrorView> {
        if path.len() == 0 {
            Err(ErrorView::EmptyPath)
        } else {
            match path[0] {
                PathElementView::Ident(s) => {
                    if s == "a"@ {
                        if path.len() == 1 {
                            Ok(
                                NodeView {
                                    ident: path[0],
                                    index: 0,
                                    size: 32,
                                    offset: 0,
                                    height: VariableList::<u128, 4>::spec_height(),
                                    is_list: true,
                                },
                            )
                        } else {
                            VariableList::<u128, 4>::spec_get_node(path.skip(1))
                        }
                    } else {
                        Err(ErrorView::InvalidPath(path[0]))
                    }
                },
                PathElementView::Index(_) => Err(ErrorView::InvalidPath(path[0])),
            }
        }
    }

    proof fn lemma_overlay_wf() {
    }

    proof fn lemma_node_bounds(path: Seq<PathElementView>) {
        lemma_vl_u128_4();
        if path.len() > 1 {
            VariableList::<u128, 4>::lemma_node_bounds(path.skip(1));
        }
    }

    fn height() -> (r: u64) {
        0
    }

    fn min_repr_size() -> (r: u64) {
        32
    }

    fn is_list() -> (r: bool) {
        true
    }

    fn get_node(path: Vec<PathElement>) -> (r: Result<Node, Error>) {
        proof {
            lemma_vl_u128_4();
            if path@.len() > 0 {
                assert(path.deep_view()[0] == path@[0].deep_view());
            }
        }
        if path.len() == 0 {
            return Err(Error::EmptyPath());
        }
        match &path[0] {
            PathElement::Ident(s) => {
                if *s == "a".to_owned() {
                    if path.len() == 1 {
                        let h = VariableList::<u128, 4>::height();
                        Ok(
                            Node {
                                ident: path[0].clone(),
                                index: 0,
                                size: 32,
                                offset: 0,
                                height: h,
                                is_list: true,
                            },
                        )
                    } else {
                        VariableList::<u128, 4>::get_node(tail_of(&path))
                    }
                } else {
                    Err(Error::InvalidPath(path[0].clone()))
                }
            },
            PathElement::Index(_) => Err(Error::InvalidPath(path[0].clone())),
        }
    }
}

/// A full chunk beside a variable-length list of half chunks.
///
/// ```text
///         root(0)
///        /       \
///      a(1)      b(2)
///                /   \
///          data(5)   len(6)
///          /      \
///     i(11)        i(12)
///     /    \      /     \
/// b[0,1] b[2,3] b[4,5] b[6,7]
/// ```
#[derive(Debug)]
pub struct MixedStruct {
    pub a: U256,
    pub b: VariableList<u128, 8>,
}

impl MerkleTreeOverlay for MixedStruct {
    open spec fn spec_height() -> u64 {
        1
    }

    open spec fn spec_min_repr_size() -> u64 {
        32
    }

    open spec fn spec_is_list() -> bool {
        false
    }

    open spec fn spec_depth() -> u64 {
        4
    }

    open spec fn spec_fits() -> bool {
        true
    }

    open spec fn spec_get_node(path: Seq<PathElementView>) -> Result<NodeView, ErrorView> {
        if path.len() == 0 {
            Err(ErrorView::EmptyPath)
        } else {
            match path[0] {
                PathElementView::Ident(s) => {
                    if s == "a"@ {
                        if path.len() == 1 {
                            Ok(
                                NodeView {
                                    ident: path[0],
                                    index: 1,
                                    size: 32,
                                    offset: 0,
                                    height: 0,
                                    is_list: false,
                                },
                            )
                        } else {
                            match U256::spec_get_node(path.skip(1)) {
                                Ok(child) => Ok(
                                    NodeView {
                                        index: spec_subtree_index(1, child.index as int) as u64,
                                        ..child
                                    },
                                ),
                                Err(e) => Err(e),
                            }
                        }
                    } else if s == "b"@ {
                        if path.len() == 1 {
                            Ok(
                                NodeView {
                                    ident: path[0],
                                    index: 2,
                                    size: 32,
                                    offset: 0,
                                    height: VariableList::<u128, 8>::spec_height(),
                                    is_list: true,
                                },
                            )
                        } else {
                            match VariableList::<u128, 8>::spec_get_node(path.skip(1)) {
                                Ok(child) => Ok(
                                    NodeView {
                                        index: spec_subtree_index(2, child.index as int) as u64,
                                        ..child
                                    },
                                ),
                                Err(e) => Err(e),
                            }
                        }
                    } else {
                        Err(ErrorView::InvalidPath(path[0]))
                    }
                },
                PathElementView::Index(_) => Err(ErrorView::InvalidPath(path[0])),
            }
        }
    }

    proof fn lemma_overlay_wf() {
    }

    proof fn lemma_node_bounds(path: Seq<PathElementView>) {
        reveal_with_fuel(depth_of, 5);
        lemma_vl_u128_8();
        if path.len() > 1 {
            U256::lemma_node_bounds(path.skip(1));
            VariableList::<u128, 8>::lemma_node_bounds(path.skip(1));
            match U256::spec_get_node(path.skip(1)) {
                Ok(child) => {
                    lemma_shifted_child_bounds(1, child.index, 0, 4);
                },
                Err(_) => {},
            }
            match VariableList::<u128, 8>::spec_get_node(path.skip(1)) {
                Ok(child) => {
                    lemma_shifted_child_bounds(2, child.index, 3, 4);
                },
                Err(_) => {},
            }
        }
    }

    fn height() -> (r: u64) {
        1
    }

    fn min_repr_size() -> (r: u64) {
        32
    }

    fn is_list() -> (r: bool) {
        false
    }

    fn get_node(path: Vec<PathElement>) -> (r: Result<Node, Error>) {
        proof {
            reveal_with_fuel(depth_of, 5);
            lemma_vl_u128_8();
            if path@.len() > 0 {
                assert(path.deep_view()[0] == path@[0].deep_view());
            }
        }
        if path.len() == 0 {
            return Err(Error::EmptyPath());
        }
        match &path[0] {
            PathElement::Ident(s) => {
                if *s == "a".to_owned() {
                    if path.len() == 1 {
                        Ok(
                            Node {
                                ident: path[0].clone(),
                                index: 1,
                                size: 32,
                                offset: 0,
                                height: 0,
                                is_list: false,
                            },
                        )
                    } else {
                        match U256::get_node(tail_of(&path)) {
                            Ok(child) => {
                                proof {
                                    U256::lemma_node_bounds(path.deep_view().skip(1));
                                    lemma_shifted_child_bounds(1, child@.index, 0, 4);
                                }
                                let index = subtree_index_to_general(1, child.index);
                                Ok(replace_index(child, index))
                            },
                            Err(e) => Err(e),
                        }
                    }
                } else if *s == "b".to_owned() {
                    if path.len() == 1 {
                        let h = VariableList::<u128, 8>::height();
                        Ok(
                            Node {
                                ident: path[0].clone(),
                                index: 2,
                                size: 32,
                                offset: 0,
                                height: h,
                                is_list: true,
                            },
                        )
                    } else {
                        match VariableList::<u128, 8>::get_node(tail_of(&path)) {
                            Ok(child) => {
                                proof {
                                    VariableList::<u128, 8>::lemma_node_bounds(
                                        path.deep_view().skip(1),
                                    );
                                    lemma_shifted_child_bounds(2, child@.index, 3, 4);
                                }
                                let index = subtree_index_to_general(2, child.index);
                                Ok(replace_index(child, index))
                            },
                            Err(e) => Err(e),
                        }
                    }
                } else {
                    Err(Error::InvalidPath(path[0].clone()))
                }
            },
            PathElement::Index(_) => Err(Error::InvalidPath(path[0].clone())),
        }
    }
}

/// A timestamped message: a small primitive beside a byte vector that
/// packs into one chunk.
#[derive(Debug)]
pub struct Message {
    pub timestamp: u64,
    pub message: FixedVector<u8, 32>,
}

impl MerkleTreeOverlay for Message {
    open spec fn spec_height() -> u64 {
        1
    }

    open spec fn spec_min_repr_size() -> u64 {
        32
    }

    open spec fn spec_is_list() -> bool {
        false
    }

    open spec fn spec_depth() -> u64 {
        1
    }

    open spec fn spec_fits() -> bool {
        true
    }

    open spec fn spec_get_node(path: Seq<PathElementView>) -> Result<NodeView, ErrorView> {
        if path.len() == 0 {
            Err(ErrorView::EmptyPath)
        } else {
            match path[0] {
                PathElementView::Ident(s) => {
                    if s == "timestamp"@ {
                        Ok(
                            NodeView {
                                ident: path[0],
                                index: 1,
                                size: 8,
                                offset: 0,
                                height: 0,
                                is_list: false,
                            },
                        )
                    } else if s == "message"@ {
                        match FixedVector::<u8, 32>::spec_get_node(path.skip(1)) {
                            Ok(child) => Ok(
                                NodeView {
                                    index: spec_subtree_index(2, child.index as int) as u64,
                                    ..child
                                },
                            ),
                            Err(e) => Err(e),
                        }
                    } else {
                        Err(ErrorView::InvalidPath(path[0]))
                    }
                },
                PathElementView::Index(_) => Err(ErrorView::InvalidPath(path[0])),
            }
        }
    }

    proof fn lemma_overlay_wf() {
    }

    proof fn lemma_node_bounds(path: Seq<PathElementView>) {
        reveal_with_fuel(depth_of, 5);
        lemma_fv_u8_32();
        if path.len() > 0 {
            FixedVector::<u8, 32>::lemma_node_bounds(path.skip(1));
            match FixedVector::<u8, 32>::spec_get_node(path.skip(1)) {
                Ok(child) => {
                    lemma_shifted_child_bounds(2, child.index, 0, 1);
                },
                Err(_) => {},
            }
        }
    }

    fn height() -> (r: u64) {
        1
    }

    fn min_repr_size() -> (r: u64) {
        32
    }

    fn is_list() -> (r: bool) {
        false
    }

    fn get_node(path: Vec<PathElement>) -> (r: Result<Node, Error>) {
        proof {
            reveal_with_fuel(depth_of, 5);
            lemma_fv_u8_32();
            if path@.len() > 0 {
                assert(path.deep_view()[0] == path@[0].deep_view());
            }
        }
        if path.len() == 0 {
            return Err(Error::EmptyPath());
        }
        match &path[0] {
            PathElement::Ident(s) => {
                if *s == "timestamp".to_owned() {
                    Ok(
                        Node {
                            ident: path[0].clone(),
                            index: 1,
                            size: 8,
                            offset: 0,
                            height: 0,
                            is_list: false,
                        },
                    )
                } else if *s == "message".to_owned() {
                    match FixedVector::<u8, 32>::get_node(tail_of(&path)) {
                        Ok(child) => {
                            proof {
                                FixedVector::<u8, 32>::lemma_node_bounds(
                                    path.deep_view().skip(1),
                                );
                                lemma_shifted_child_bounds(2, child@.index, 0, 1);
                            }
                            let index = subtree_index_to_general(2, child.index);
                            Ok(replace_index(child, index))
                        },
                        Err(e) => Err(e),
                    }
                } else {
                    Err(Error::InvalidPath(path[0].clone()))
                }
            },
            PathElement::Index(_) => Err(Error::InvalidPath(path[0].clone())),
        }
    }
}

/// The concrete layout parameters of `VariableList<Message, 8>`.
proof fn lemma_vl_message_8()
    ensures
        VariableList::<Message, 8>::spec_fits(),
        VariableList::<Message, 8>::spec_height() == 4,
        VariableList::<Message, 8>::spec_depth() == 5,
        VariableList::<Message, 8>::spec_min_repr_size() == 32,
{
    reveal_with_fuel(clog2, 5);
    assert(items_per_chunk::<Message>() == 1);
    assert(chunk_count::<Message>(8) == 8);
    assert(clog2(8) == 3);
}

/// A state holding a variable-length list of messages at its root.
#[derive(Debug)]
pub struct State {
    pub messages: VariableList<Message, 8>,
}

impl MerkleTreeOverlay for State {
    open spec fn spec_height() -> u64 {
        0
    }

    open spec fn spec_min_repr_size() -> u64 {
        32
    }

    open spec fn spec_is_list() -> bool {
        true
    }

    open spec fn spec_depth() -> u64 {
        5
    }

    open spec fn spec_fits() -> bool {
        true
    }

    open spec fn spec_get_node(path: Seq<PathElementView>) -> Result<NodeView, ErrorView> {
        if path.len() == 0 {
            Err(ErrorView::EmptyPath)
        } else {
            match path[0] {
                PathElementView::Ident(s) => {
                    if s == "messages"@ {
                        if path.len() == 1 {
                            Ok(
                                NodeView {
                                    ident: path[0],
                                    index: 0,
                                    size: 32,
                                    offset: 0,
                                    height: VariableList::<Message, 8>::spec_height(),
                                    is_list: true,
                                },
                            )
                        } else {
                            VariableList::<Message, 8>::spec_get_node(path.skip(1))
                        }
                    } else {
                        Err(ErrorView::InvalidPath(path[0]))
                    }
                },
                PathElementView::Index(_) => Err(ErrorView::InvalidPath(path[0])),
            }
        }
    }

    proof fn lemma_overlay_wf() {
    }

    proof fn lemma_node_bounds(path: Seq<PathElementView>) {
        lemma_vl_message_8();
        if path.len() > 1 {
            VariableList::<Message, 8>::lemma_node_bounds(path.skip(1));
        }
    }

    fn height() -> (r: u64) {
        0
    }

    fn min_repr_size() -> (r: u64) {
        32
    }

    fn is_list() -> (r: bool) {
        true
    }

    fn get_node(path: Vec<PathElement>) -> (r: Result<Node, Error>) {
        proof {
            lemma_vl_message_8();
            if path@.len() > 0 {
                assert(path.deep_view()[0] == path@[0].deep_view());
            }
        }
        if path.len() == 0 {
            return Err(Error::EmptyPath());
        }
        match &path[0] {
            PathElement::Ident(s) => {
                if *s == "messages".to_owned() {
                    if path.len() == 1 {
                        let h = VariableList::<Message, 8>::height();
                        Ok(
                            Node {
                                ident: path[0].clone(),
                                index: 0,
                                size: 32,
                                offset: 0,
                                height: h,
                                is_list: true,
                            },
                        )
                    } else {
                        VariableList::<Message, 8>::get_node(tail_of(&path))
                    }
                } else {
                    Err(Error::InvalidPath(path[0].clone()))
                }
            },
            PathElement::Index(_) => Err(Error::InvalidPath(path[0].clone())),
        }
    }
}

/// Overlay packing for `PackedStruct`: the three fields' byte ranges are
/// pairwise disjoint sub-ranges of the single chunk `[0, 32)`.
pub proof fn lemma_packed_struct_partition()
    ensures
        ({
            let a = PackedStruct::spec_get_node(seq![PathElementView::Ident("a"@)]);
            let b = PackedStruct::spec_get_node(seq![PathElementView::Ident("b"@)]);
            let c = PackedStruct::spec_get_node(seq![PathElementView::Ident("c"@)]);
            &&& a matches Ok(na) && (b matches Ok(nb) && (c matches Ok(nc) && {
                &&& na.index == nb.index
                &&& nb.index == nc.index
                &&& na.offset + na.size <= nb.offset
                &&& nb.offset + nb.size <= nc.offset
                &&& nc.offset + nc.size <= 32
            }))
        }),
{
    reveal_strlit("a");
    reveal_strlit("b");
    reveal_strlit("c");
    assert("a"@.len() == 1 && "a"@[0] == 'a');
    assert("b"@.len() == 1 && "b"@[0] == 'b');
    assert("c"@.len() == 1 && "c"@[0] == 'c');
    assert("a"@ != "b"@ && "a"@ != "c"@ && "b"@ != "c"@);
}

/// Overlay packing for `SimpleStruct`: the two packed fields `c` and `d`
/// share one chunk and their byte ranges split `[0, 32)` without overlap.
pub proof fn lemma_simple_struct_partition()
    ensures
        ({
            let c = SimpleStruct::spec_get_node(seq![PathElementView::Ident("c"@)]);
            let d = SimpleStruct::spec_get_node(seq![PathElementView::Ident("d"@)]);
            &&& c matches Ok(nc) && (d matches Ok(nd) && {
                &&& nc.index == nd.index
                &&& nc.offset + nc.size <= nd.offset
                &&& nd.offset + nd.size <= 32
            })
        }),
{
    reveal_strlit("a");
    reveal_strlit("b");
    reveal_strlit("c");
    reveal_strlit("d");
    assert("a"@.len() == 1 && "a"@[0] == 'a');
    assert("b"@.len() == 1 && "b"@[0] == 'b');
    assert("c"@.len() == 1 && "c"@[0] == 'c');
    assert("d"@.len() == 1 && "d"@[0] == 'd');
    assert("c"@ != "a"@ && "c"@ != "b"@ && "d"@ != "a"@ && "d"@ != "b"@ && "c"@ != "d"@);
}

} // verus!
