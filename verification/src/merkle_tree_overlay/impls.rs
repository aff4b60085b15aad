//! Implementations of `MerkleTreeOverlay` for the SSZ primitives and for
//! the `FixedVector` and `VariableList` collection types.
//!
//! The merkle tree of a variable-length list pairs the data tree with the
//! list's length, and the tree of a fixed vector is the data tree itself:
//!
//! ```text
//!             root                        root
//!           /      \                    /      \
//!      data_root   len                 *        *
//!        /   \                        / \      / \
//!       *     *                      x   x    x   x
//!      / \   / \
//!     x   x x   x
//! ```
use vstd::prelude::*;

verus! {

use crate::error::{Error, ErrorView};
use crate::node::{Node, NodeView};
use crate::path::{PathElement, PathElementView};
use crate::merkle_tree_overlay::{node_result_view, MerkleTreeOverlay};
use crate::types::{FixedVector, VariableList};
use crate::NodeIndex;
use ethereum_types::U256;

/// The 256-bit unsigned integer of the `ethereum-types` crate, declared so
/// that it can carry this crate's overlay; none of its own operations are
/// relied on.
#[verifier::external_type_specification]
#[verifier::external_body]
pub struct ExU256(U256);

/// The descriptor a primitive of `width` bytes returns: primitives accept
/// only the empty path and occupy the leading bytes of their own chunk.
pub open spec fn spec_primitive_get_node(width: u64, path: Seq<PathElementView>) -> Result<
    NodeView,
    ErrorView,
> {
    if path.len() == 0 {
        Ok(
            NodeView {
                index: 0,
                ident: PathElementView::Ident(""@),
                size: width as u8,
                offset: 0,
                height: 0,
                is_list: false,
            },
        )
    } else {
        Err(ErrorView::InvalidPath(path[0]))
    }
}

/// Resolves a path against a primitive of `width` bytes.
fn primitive_get_node(width: u64, path: Vec<PathElement>) -> (r: Result<Node, Error>)
    requires
        width <= 32,
    ensures
        node_result_view(r) == spec_primitive_get_node(width, path.deep_view()),
{
    if path.len() == 0 {
        Ok(
            Node {
                ident: PathElement::from_ident_str(""),
                index: 0,
                size: width as u8,
                offset: 0,
                height: 0,
                is_list: false,
            },
        )
    } else {
        let e = path[0].clone();
        proof {
            assert(path.deep_view()[0] == path@[0].deep_view());
        }
        Err(Error::InvalidPath(e))
    }
}

impl MerkleTreeOverlay for bool {
    open spec fn spec_height() -> u64 {
        0
    }

    open spec fn spec_min_repr_size() -> u64 {
        1
    }

    open spec fn spec_is_list() -> bool {
        false
    }

    open spec fn spec_depth() -> u64 {
        0
    }

    open spec fn spec_fits() -> bool {
        true
    }

    open spec fn spec_get_node(path: Seq<PathElementView>) -> Result<NodeView, ErrorView> {
        spec_primitive_get_node(1, path)
    }

    proof fn lemma_overlay_wf() {
    }

    proof fn lemma_node_bounds(path: Seq<PathElementView>) {
    }

    fn height() -> u64 {
        0
    }

    fn min_repr_size() -> u64 {
        1
    }

    fn is_list() -> bool {
        false
    }

    fn get_node(path: Vec<PathElement>) -> (r: Result<Node, Error>) {
        primitive_get_node(1, path)
    }
}

impl MerkleTreeOverlay for u8 {
    open spec fn spec_height() -> u64 {
        0
    }

    open spec fn spec_min_repr_size() -> u64 {
        1
    }

    open spec fn spec_is_list() -> bool {
        false
    }

    open spec fn spec_depth() -> u64 {
        0
    }

    open spec fn spec_fits() -> bool {
        true
    }

    open spec fn spec_get_node(path: Seq<PathElementView>) -> Result<NodeView, ErrorView> {
        spec_primitive_get_node(1, path)
    }

    proof fn lemma_overlay_wf() {
    }

    proof fn lemma_node_bounds(path: Seq<PathElementView>) {
    }

    fn height() -> u64 {
        0
    }

    fn min_repr_size() -> u64 {
        1
    }

    fn is_list() -> bool {
        false
    }

    fn get_node(path: Vec<PathElement>) -> (r: Result<Node, Error>) {
        primitive_get_node(1, path)
    }
}

impl MerkleTreeOverlay for u16 {
    open spec fn spec_height() -> u64 {
        0
    }

    open spec fn spec_min_repr_size() -> u64 {
        2
    }

    open spec fn spec_is_list() -> bool {
        false
    }

    open spec fn spec_depth() -> u64 {
        0
    }

    open spec fn spec_fits() -> bool {
        true
    }

    open spec fn spec_get_node(path: Seq<PathElementView>) -> Result<NodeView, ErrorView> {
        spec_primitive_get_node(2, path)
    }

    proof fn lemma_overlay_wf() {
    }

    proof fn lemma_node_bounds(path: Seq<PathElementView>) {
    }

    fn height() -> u64 {
        0
    }

    fn min_repr_size() -> u64 {
        2
    }

    fn is_list() -> bool {
        false
    }

    fn get_node(path: Vec<PathElement>) -> (r: Result<Node, Error>) {
        primitive_get_node(2, path)
    }
}

impl MerkleTreeOverlay for u32 {
    open spec fn spec_height() -> u64 {
        0
    }

    open spec fn spec_min_repr_size() -> u64 {
        4
    }

    open spec fn spec_is_list() -> bool {
        false
    }

    open spec fn spec_depth() -> u64 {
        0
    }

    open spec fn spec_fits() -> bool {
        true
    }

    open spec fn spec_get_node(path: Seq<PathElementView>) -> Result<NodeView, ErrorView> {
        spec_primitive_get_node(4, path)
    }

    proof fn lemma_overlay_wf() {
    }

    proof fn lemma_node_bounds(path: Seq<PathElementView>) {
    }

    fn height() -> u64 {
        0
    }

    fn min_repr_size() -> u64 {
        4
    }

    fn is_list() -> bool {
        false
    }

    fn get_node(path: Vec<PathElement>) -> (r: Result<Node, Error>) {
        primitive_get_node(4, path)
    }
}

impl MerkleTreeOverlay for u64 {
    open spec fn spec_height() -> u64 {
        0
    }

    open spec fn spec_min_repr_size() -> u64 {
        8
    }

    open spec fn spec_is_list() -> bool {
        false
    }

    open spec fn spec_depth() -> u64 {
        0
    }

    open spec fn spec_fits() -> bool {
        true
    }

    open spec fn spec_get_node(path: Seq<PathElementView>) -> Result<NodeView, ErrorView> {
        spec_primitive_get_node(8, path)
    }

    proof fn lemma_overlay_wf() {
    }

    proof fn lemma_node_bounds(path: Seq<PathElementView>) {
    }

    fn height() -> u64 {
        0
    }

    fn min_repr_size() -> u64 {
        8
    }

    fn is_list() -> bool {
        false
    }

    fn get_node(path: Vec<PathElement>) -> (r: Result<Node, Error>) {
        primitive_get_node(8, path)
    }
}

impl MerkleTreeOverlay for u128 {
    open spec fn spec_height() -> u64 {
        0
    }

    open spec fn spec_min_repr_size() -> u64 {
        16
    }

    open spec fn spec_is_list() -> bool {
        false
    }

    open spec fn spec_depth() -> u64 {
        0
    }

    open spec fn spec_fits() -> bool {
        true
    }

    open spec fn spec_get_node(path: Seq<PathElementView>) -> Result<NodeView, ErrorView> {
        spec_primitive_get_node(16, path)
    }

    proof fn lemma_overlay_wf() {
    }

    proof fn lemma_node_bounds(path: Seq<PathElementView>) {
    }

    fn height() -> u64 {
        0
    }

    fn min_repr_size() -> u64 {
        16
    }

    fn is_list() -> bool {
        false
    }

    fn get_node(path: Vec<PathElement>) -> (r: Result<Node, Error>) {
        primitive_get_node(16, path)
    }
}

/// The overlay fixes `usize` at eight bytes, its width on the 64-bit
/// targets this tree layout is defined for.
impl MerkleTreeOverlay for usize {
    open spec fn spec_height() -> u64 {
        0
    }

    open spec fn spec_min_repr_size() -> u64 {
        8
    }

    open spec fn spec_is_list() -> bool {
        false
    }

    open spec fn spec_depth() -> u64 {
        0
    }

    open spec fn spec_fits() -> bool {
        true
    }

    open spec fn spec_get_node(path: Seq<PathElementView>) -> Result<NodeView, ErrorView> {
        spec_primitive_get_node(8, path)
    }

    proof fn lemma_overlay_wf() {
    }

    proof fn lemma_node_bounds(path: Seq<PathElementView>) {
    }

    fn height() -> u64 {
        0
    }

    fn min_repr_size() -> u64 {
        8
    }

    fn is_list() -> bool {
        false
    }

    fn get_node(path: Vec<PathElement>) -> (r: Result<Node, Error>) {
        primitive_get_node(8, path)
    }
}

impl MerkleTreeOverlay for U256 {
    open spec fn spec_height() -> u64 {
        0
    }

    open spec fn spec_min_repr_size() -> u64 {
        32
    }

    open spec fn spec_is_list() -> bool {
        false
    }

    open spec fn spec_depth() -> u64 {
        0
    }

    open spec fn spec_fits() -> bool {
        true
    }

    open spec fn spec_get_node(path: Seq<PathElementView>) -> Result<NodeView, ErrorView> {
        spec_primitive_get_node(32, path)
    }

    proof fn lemma_overlay_wf() {
    }

    proof fn lemma_node_bounds(path: Seq<PathElementView>) {
    }

    fn height() -> u64 {
        0
    }

    fn min_repr_size() -> u64 {
        32
    }

    fn is_list() -> bool {
        false
    }

    fn get_node(path: Vec<PathElement>) -> (r: Result<Node, Error>) {
        primitive_get_node(32, path)
    }
}

use crate::tree_arithmetic::{
    clog2,
    depth_of,
    flog2,
    left_most_leaf,
    lemma_clog2_bracket,
    lemma_depth_row,
    lemma_flog2_pow2,
    lemma_index_bound_of_depth,
    lemma_subtree_index_depth,
    log_base_two,
    next_power_of_two,
    spec_subtree_index,
    subtree_index_to_general,
};
use vstd::arithmetic::power2::{
    pow2,
    lemma_pow2_adds,
    lemma_pow2_pos,
    lemma_pow2_strictly_increases,
    lemma2_to64,
    lemma2_to64_rest,
};
use vstd::arithmetic::div_mod::{
    lemma_div_is_ordered,
    lemma_fundamental_div_mod,
    lemma_fundamental_div_mod_converse,
};

/// How many items share one 32-byte chunk: one for composites, several for
/// small primitives.
pub open spec fn items_per_chunk<T: MerkleTreeOverlay>() -> int {
    (32 as int) / (T::spec_min_repr_size() as int)
}

/// The number of chunks needed for `n` items, rounding up.
pub open spec fn chunk_count<T: MerkleTreeOverlay>(n: u64) -> int {
    (n + items_per_chunk::<T>() - 1) / items_per_chunk::<T>()
}

/// The height of the data tree: the chunks are padded to the next power of
/// two and sit at this depth.
pub open spec fn data_height<T: MerkleTreeOverlay>(n: u64) -> nat {
    clog2(chunk_count::<T>(n))
}

/// The height of the whole collection tree; a variable-length list adds one
/// level that pairs the data root with the length chunk.
pub open spec fn collection_height<T: MerkleTreeOverlay>(n: u64, list: bool) -> nat {
    data_height::<T>(n) + if list {
        1nat
    } else {
        0nat
    }
}

/// A bound on the depth of any index a collection overlay can return.
pub open spec fn collection_depth<T: MerkleTreeOverlay>(n: u64, list: bool) -> int {
    collection_height::<T>(n, list) + T::spec_depth()
}

/// The collection holds at least one item and its tree, together with
/// everything hanging below the leaves, stays within the 64-bit index
/// space.
pub open spec fn collection_fits<T: MerkleTreeOverlay>(n: u64, list: bool) -> bool {
    &&& T::spec_fits()
    &&& n >= 1
    &&& collection_depth::<T>(n, list) <= 62
}

/// The minimum representation size of the collection: its full byte width
/// when it packs into a single chunk, and 32 otherwise.
pub open spec fn collection_min_size<T: MerkleTreeOverlay>(n: u64, list: bool) -> u64 {
    if collection_height::<T>(n, list) > 0 {
        32
    } else {
        (T::spec_min_repr_size() * n) as u64
    }
}

/// The descriptor a collection returns for a path.
///
/// A leading numeric index below the capacity addresses the leaf chunk that
/// holds the item (packed small primitives share a chunk at distinct
/// offsets); if the path continues, the item's own overlay resolves the
/// rest and the resulting index is shifted below that leaf.  For a
/// variable-length list the identifier `len` addresses the length chunk at
/// index 2.
pub open spec fn spec_collection_get_node<T: MerkleTreeOverlay>(
    n: u64,
    list: bool,
    path: Seq<PathElementView>,
) -> Result<NodeView, ErrorView> {
    if path.len() == 0 {
        Err(ErrorView::EmptyPath)
    } else {
        match path[0] {
            PathElementView::Index(position) => {
                if position >= n {
                    Err(ErrorView::IndexOutOfBounds(position))
                } else {
                    let h = collection_height::<T>(n, list);
                    let ipc = items_per_chunk::<T>();
                    let chunk = position / ipc as u64;
                    let leaf = pow2(h) - 1 + chunk;
                    if path.len() == 1 {
                        Ok(
                            NodeView {
                                index: leaf as u64,
                                ident: path[0],
                                size: T::spec_min_repr_size() as u8,
                                offset: ((position % ipc as u64)
                                    * T::spec_min_repr_size()) as u8,
                                height: T::spec_height(),
                                is_list: T::spec_is_list(),
                            },
                        )
                    } else {
                        match T::spec_get_node(path.skip(1)) {
                            Ok(child) => Ok(
                                NodeView {
                                    index: spec_subtree_index(
                                        leaf as int,
                                        child.index as int,
                                    ) as u64,
                                    ..child
                                },
                            ),
                            Err(e) => Err(e),
                        }
                    }
                }
            },
            PathElementView::Ident(s) => {
                if list && s == "len"@ {
                    Ok(
                        NodeView {
                            index: 2,
                            ident: PathElementView::Ident("len"@),
                            size: 32,
                            offset: 0,
                            height: 0,
                            is_list: false,
                        },
                    )
                } else {
                    Err(ErrorView::InvalidPath(path[0]))
                }
            },
        }
    }
}

/// The basic arithmetic facts of a collection layout.
pub proof fn lemma_collection_wf<T: MerkleTreeOverlay>(n: u64, list: bool)
    requires
        collection_fits::<T>(n, list),
    ensures
        1 <= items_per_chunk::<T>() <= 32,
        1 <= chunk_count::<T>(n) <= pow2(data_height::<T>(n)),
        items_per_chunk::<T>() * T::spec_min_repr_size() <= 32,
        1 <= collection_min_size::<T>(n, list) <= 32,
        collection_height::<T>(n, list) > 0 ==> collection_min_size::<T>(n, list) == 32,
        collection_height::<T>(n, list) == 0 ==> n <= items_per_chunk::<T>(),
{
    T::lemma_overlay_wf();
    let m = T::spec_min_repr_size() as int;
    let ipc = items_per_chunk::<T>();
    assert(1 <= ipc <= 32) by {
        lemma_div_is_ordered(m, 32, m);
        assert(m / m == 1) by {
            lemma_fundamental_div_mod_converse(m, m, 1, 0);
        }
        lemma_div_is_ordered(32, 32 * m, m);
        assert((32 * m) / m == 32) by {
            lemma_fundamental_div_mod_converse(32 * m, m, 32, 0);
        }
    }
    assert(ipc * m <= 32) by {
        lemma_fundamental_div_mod(32, m);
    }
    let cc = chunk_count::<T>(n);
    assert(cc >= 1) by {
        lemma_div_is_ordered(ipc, n + ipc - 1, ipc);
        assert(ipc / ipc == 1) by {
            lemma_fundamental_div_mod_converse(ipc, ipc, 1, 0);
        }
    }
    lemma_clog2_bracket(cc);
    if collection_height::<T>(n, list) == 0 {
        assert(cc <= 1);
        assert(n <= ipc) by {
            if n > ipc {
                assert(n + ipc - 1 >= 2 * ipc);
                lemma_div_is_ordered(2 * ipc, n + ipc - 1, ipc);
                assert((2 * ipc) / ipc == 2) by {
                    lemma_fundamental_div_mod_converse(2 * ipc, ipc, 2, 0);
                }
            }
        }
        assert(1 <= m * n <= 32) by (nonlinear_arith)
            requires
                1 <= m,
                1 <= n <= ipc,
                ipc * m <= 32,
        ;
    }
}

/// Where an in-bounds item position lands: its chunk sits in the leaf row
/// of the data tree and its bytes stay inside the chunk.
pub proof fn lemma_chunk_facts<T: MerkleTreeOverlay>(n: u64, list: bool, position: u64)
    requires
        collection_fits::<T>(n, list),
        position < n,
    ensures
        0 <= position / (items_per_chunk::<T>() as u64) < pow2(data_height::<T>(n)),
        (position % (items_per_chunk::<T>() as u64)) * T::spec_min_repr_size()
            + T::spec_min_repr_size() <= 32,
        depth_of(
            pow2(collection_height::<T>(n, list)) - 1 + position / (
            items_per_chunk::<T>() as u64),
        ) == collection_height::<T>(n, list),
        pow2(collection_height::<T>(n, list)) - 1 + position / (items_per_chunk::<T>() as u64)
            < pow2(63),
{
    T::lemma_overlay_wf();
    lemma_collection_wf::<T>(n, list);
    let m = T::spec_min_repr_size() as int;
    let ipc = items_per_chunk::<T>();
    let cc = chunk_count::<T>(n);
    let chunk = position as int / ipc;
    assert(position as int / ipc == (position / (ipc as u64)) as int);
    // the chunk of the last item is the last chunk
    let q = (n - 1) as int / ipc;
    let rr = (n - 1) as int % ipc;
    lemma_fundamental_div_mod(n - 1, ipc);
    assert(n + ipc - 1 == ipc * (q + 1) + rr) by (nonlinear_arith)
        requires
            n - 1 == ipc * q + rr,
    ;
    lemma_fundamental_div_mod_converse(n + ipc - 1, ipc, q + 1, rr);
    assert(cc == q + 1);
    lemma_div_is_ordered(position as int, n - 1, ipc);
    assert(chunk < cc);
    // offsets stay inside the chunk
    assert((position as int % ipc) * m + m <= 32) by (nonlinear_arith)
        requires
            0 <= position as int % ipc < ipc,
            m >= 1,
            ipc * m <= 32,
    ;
    assert(position as int % ipc == (position % (ipc as u64)) as int);
    // the leaf sits in the row of the collection's height
    let h = collection_height::<T>(n, list);
    let dh = data_height::<T>(n);
    assert(pow2(dh) <= pow2(h)) by {
        if dh < h {
            lemma_pow2_strictly_increases(dh, h);
        }
    }
    lemma_depth_row(pow2(h) - 1 + chunk, h);
    assert(pow2(h) <= pow2(62)) by {
        if h < 62 {
            lemma_pow2_strictly_increases(h, 62);
        }
    }
    assert(pow2(62) * 2 == pow2(63)) by {
        lemma_pow2_adds(62, 1);
        lemma2_to64();
    }
}

/// Every descriptor a collection overlay returns addresses a slice inside
/// one chunk, at an index within the collection's depth bound.
pub proof fn lemma_collection_node_bounds<T: MerkleTreeOverlay>(
    n: u64,
    list: bool,
    path: Seq<PathElementView>,
)
    requires
        collection_fits::<T>(n, list),
    ensures
        match spec_collection_get_node::<T>(n, list, path) {
            Ok(nd) => depth_of(nd.index as int) <= collection_depth::<T>(n, list) && nd.offset
                + nd.size <= 32,
            Err(_) => true,
        },
{
    T::lemma_overlay_wf();
    lemma_collection_wf::<T>(n, list);
    let h = collection_height::<T>(n, list);
    if path.len() > 0 {
        match path[0] {
            PathElementView::Index(position) => {
                if position < n {
                    lemma_chunk_facts::<T>(n, list, position);
                    let ipc = items_per_chunk::<T>();
                    let chunk = position / ipc as u64;
                    let leaf = pow2(h) - 1 + chunk;
                    assert(pow2(63) <= u64::MAX) by {
                        lemma2_to64_rest();
                    }
                    if path.len() == 1 {
                        assert(depth_of(leaf as u64 as int) == h);
                    } else {
                        match T::spec_get_node(path.skip(1)) {
                            Ok(child) => {
                                T::lemma_node_bounds(path.skip(1));
                                lemma_subtree_index_depth(leaf as int, child.index as int);
                                let g = spec_subtree_index(leaf as int, child.index as int);
                                assert(depth_of(g) <= collection_depth::<T>(n, list));
                                lemma_index_bound_of_depth(g, 62);
                                assert(pow2(62) * 2 == pow2(63)) by {
                                    lemma_pow2_adds(62, 1);
                                    lemma2_to64();
                                }
                                assert(g as u64 as int == g);
                            },
                            Err(_) => {},
                        }
                    }
                }
            },
            PathElementView::Ident(s) => {
                if list && s == "len"@ {
                    assert(depth_of(2) == 1) by {
                        assert(depth_of(0) == 0);
                        assert((2 - 1) / 2 == 0);
                    }
                }
            },
        }
    }
}

/// Computes the height of a collection tree.
fn collection_height_exec<T: MerkleTreeOverlay>(n: u64, list: bool) -> (r: u64)
    requires
        collection_fits::<T>(n, list),
    ensures
        r == collection_height::<T>(n, list),
{
    proof {
        T::lemma_overlay_wf();
        lemma_collection_wf::<T>(n, list);
    }
    let m = T::min_repr_size();
    let ipc = 32 / m;
    let ghost cc = chunk_count::<T>(n);
    let c: u64 = if n % ipc != 0 {
        proof {
            assert(ipc >= 2) by {
                if ipc == 1 {
                    assert(n as int % 1 == 0) by {
                        lemma_fundamental_div_mod(n as int, 1);
                    }
                }
            }
            let q = n as int / ipc as int;
            let rm = n as int % ipc as int;
            lemma_fundamental_div_mod(n as int, ipc as int);
            assert(n + ipc - 1 == ipc as int * (q + 1) + (rm - 1)) by (nonlinear_arith)
                requires
                    n as int == ipc as int * q + rm,
            ;
            lemma_fundamental_div_mod_converse(n + ipc - 1, ipc as int, q + 1, rm - 1);
            assert(q + 1 == cc);
            assert(cc <= pow2(62)) by {
                lemma_clog2_bracket(cc);
                if data_height::<T>(n) < 62 {
                    lemma_pow2_strictly_increases(data_height::<T>(n), 62);
                }
            }
            assert(pow2(62) < u64::MAX) by {
                lemma2_to64_rest();
            }
        }
        n / ipc + 1
    } else {
        proof {
            let q = n as int / ipc as int;
            lemma_fundamental_div_mod(n as int, ipc as int);
            assert(n + ipc - 1 == ipc as int * q + (ipc as int - 1)) by (nonlinear_arith)
                requires
                    n as int == ipc as int * q,
            ;
            lemma_fundamental_div_mod_converse(n + ipc - 1, ipc as int, q, ipc as int - 1);
            assert(q == cc);
        }
        n / ipc
    };
    proof {
        assert(cc <= pow2(62)) by {
            lemma_clog2_bracket(cc);
            if data_height::<T>(n) < 62 {
                lemma_pow2_strictly_increases(data_height::<T>(n), 62);
            }
        }
        assert(pow2(62) <= pow2(63)) by {
            lemma_pow2_strictly_increases(62, 63);
        }
    }
    let npo2 = next_power_of_two(c);
    let dh = log_base_two(npo2);
    proof {
        lemma_flog2_pow2(clog2(c as int));
        assert(dh == data_height::<T>(n));
        assert(data_height::<T>(n) <= 62);
    }
    if list {
        dh + 1
    } else {
        dh
    }
}

/// Computes the minimum representation size of a collection.
fn collection_min_size_exec<T: MerkleTreeOverlay>(n: u64, list: bool) -> (r: u64)
    requires
        collection_fits::<T>(n, list),
    ensures
        r == collection_min_size::<T>(n, list),
{
    proof {
        T::lemma_overlay_wf();
        lemma_collection_wf::<T>(n, list);
    }
    let h = collection_height_exec::<T>(n, list);
    if h > 0 {
        32
    } else {
        proof {
            assert(1 <= T::spec_min_repr_size() * n <= 32) by (nonlinear_arith)
                requires
                    1 <= T::spec_min_repr_size(),
                    1 <= n <= items_per_chunk::<T>(),
                    items_per_chunk::<T>() * T::spec_min_repr_size() <= 32,
            ;
        }
        T::min_repr_size() * n
    }
}

/// Copies the tail of a path, so that an element's overlay can resolve it.
pub(crate) fn tail_of(path: &Vec<PathElement>) -> (r: Vec<PathElement>)
    requires
        path@.len() >= 1,
    ensures
        r.deep_view() == path.deep_view().skip(1),
{
    let mut r: Vec<PathElement> = Vec::new();
    let mut i: usize = 1;
    while i < path.len()
        invariant
            1 <= i <= path@.len(),
            r@.len() == i - 1,
            forall|j: int| 0 <= j < i - 1 ==> #[trigger] r@[j] == path@[j + 1],
        decreases path@.len() - i,
    {
        r.push(path[i].clone());
        i = i + 1;
    }
    proof {
        assert(r.deep_view() =~= path.deep_view().skip(1));
    }
    r
}

/// Resolves a path against a collection of `n` items of type `T`.
fn collection_get_node<T: MerkleTreeOverlay>(n: u64, list: bool, path: Vec<PathElement>) -> (r:
    Result<Node, Error>)
    requires
        collection_fits::<T>(n, list),
    ensures
        node_result_view(r) == spec_collection_get_node::<T>(n, list, path.deep_view()),
{
    proof {
        T::lemma_overlay_wf();
        lemma_collection_wf::<T>(n, list);
        if path@.len() > 0 {
            assert(path.deep_view()[0] == path@[0].deep_view());
        }
    }
    if path.len() == 0 {
        return Err(Error::EmptyPath());
    }
    match &path[0] {
        PathElement::Index(pos) => {
            let position: u64 = *pos;
            if position >= n {
                return Err(Error::IndexOutOfBounds(position));
            }
            proof {
                lemma_chunk_facts::<T>(n, list, position);
                assert(pow2(63) <= u64::MAX) by {
                    lemma2_to64_rest();
                }
            }
            let m = T::min_repr_size();
            let ipc = 32 / m;
            let h = collection_height_exec::<T>(n, list);
            let first_leaf = left_most_leaf(0, h);
            let chunk = position / ipc;
            let leaf = first_leaf + chunk;
            if path.len() == 1 {
                Ok(
                    Node {
                        ident: path[0].clone(),
                        index: leaf,
                        size: m as u8,
                        offset: ((position % ipc) * m) as u8,
                        height: T::height(),
                        is_list: T::is_list(),
                    },
                )
            } else {
                let tail = tail_of(&path);
                match T::get_node(tail) {
                    Ok(child) => {
                        proof {
                            T::lemma_node_bounds(path.deep_view().skip(1));
                            lemma_subtree_index_depth(leaf as int, child@.index as int);
                            let g = spec_subtree_index(leaf as int, child@.index as int);
                            lemma_index_bound_of_depth(g, 62);
                            assert(pow2(62) * 2 == pow2(63)) by {
                                lemma_pow2_adds(62, 1);
                                lemma2_to64();
                            }
                        }
                        let index = subtree_index_to_general(leaf, child.index);
                        Ok(replace_index(child, index))
                    },
                    Err(e) => Err(e),
                }
            }
        },
        PathElement::Ident(s) => {
            let len_string: String = "len".to_owned();
            if list && *s == len_string {
                Ok(
                    Node {
                        ident: PathElement::from_ident_str("len"),
                        index: 2,
                        size: 32,
                        offset: 0,
                        height: 0,
                        is_list: false,
                    },
                )
            } else {
                Err(Error::InvalidPath(path[0].clone()))
            }
        },
    }
}

impl<T: MerkleTreeOverlay, const N: u64> MerkleTreeOverlay for FixedVector<T, N> {
    open spec fn spec_height() -> u64 {
        collection_height::<T>(N, false) as u64
    }

    open spec fn spec_min_repr_size() -> u64 {
        collection_min_size::<T>(N, false)
    }

    open spec fn spec_is_list() -> bool {
        false
    }

    open spec fn spec_depth() -> u64 {
        collection_depth::<T>(N, false) as u64
    }

    open spec fn spec_fits() -> bool {
        collection_fits::<T>(N, false)
    }

    open spec fn spec_get_node(path: Seq<PathElementView>) -> Result<NodeView, ErrorView> {
        spec_collection_get_node::<T>(N, false, path)
    }

    proof fn lemma_overlay_wf() {
        T::lemma_overlay_wf();
        lemma_collection_wf::<T>(N, false);
    }

    proof fn lemma_node_bounds(path: Seq<PathElementView>) {
        lemma_collection_node_bounds::<T>(N, false, path);
    }

    fn height() -> (r: u64) {
        collection_height_exec::<T>(N, false)
    }

    fn min_repr_size() -> (r: u64) {
        collection_min_size_exec::<T>(N, false)
    }

    fn is_list() -> (r: bool) {
        false
    }

    fn get_node(path: Vec<PathElement>) -> (r: Result<Node, Error>) {
        collection_get_node::<T>(N, false, path)
    }
}

impl<T: MerkleTreeOverlay, const N: u64> MerkleTreeOverlay for VariableList<T, N> {
    open spec fn spec_height() -> u64 {
        collection_height::<T>(N, true) as u64
    }

    open spec fn spec_min_repr_size() -> u64 {
        collection_min_size::<T>(N, true)
    }

    open spec fn spec_is_list() -> bool {
        true
    }

    open spec fn spec_depth() -> u64 {
        collection_depth::<T>(N, true) as u64
    }

    open spec fn spec_fits() -> bool {
        collection_fits::<T>(N, true)
    }

    open spec fn spec_get_node(path: Seq<PathElementView>) -> Result<NodeView, ErrorView> {
        spec_collection_get_node::<T>(N, true, path)
    }

    proof fn lemma_overlay_wf() {
        T::lemma_overlay_wf();
        lemma_collection_wf::<T>(N, true);
    }

    proof fn lemma_node_bounds(path: Seq<PathElementView>) {
        lemma_collection_node_bounds::<T>(N, true, path);
    }

    fn height() -> (r: u64) {
        collection_height_exec::<T>(N, true)
    }

    fn min_repr_size() -> (r: u64) {
        collection_min_size_exec::<T>(N, true)
    }

    fn is_list() -> (r: bool) {
        true
    }

    fn get_node(path: Vec<PathElement>) -> (r: Result<Node, Error>) {
        collection_get_node::<T>(N, true, path)
    }
}

/// Shifting a child descriptor below a subtree root keeps it within a
/// depth bound, and within the 64-bit index space while that bound is at
/// most 62.
pub proof fn lemma_shifted_child_bounds(root: u64, child_index: u64, child_bound: u64, total: u64)
    requires
        depth_of(child_index as int) <= child_bound,
        depth_of(root as int) + child_bound <= total,
        total <= 62,
    ensures
        ({
            let g = spec_subtree_index(root as int, child_index as int);
            &&& depth_of(g) <= total
            &&& 0 <= g < pow2(63)
            &&& (g as u64) as int == g
            &&& pow2(63) <= u64::MAX
        }),
{
    lemma_subtree_index_depth(root as int, child_index as int);
    let g = spec_subtree_index(root as int, child_index as int);
    lemma_index_bound_of_depth(g, 62);
    assert(pow2(62) * 2 == pow2(63)) by {
        lemma_pow2_adds(62, 1);
        lemma2_to64();
    }
    assert(pow2(63) <= u64::MAX) by {
        lemma2_to64_rest();
    }
}

/// Out-of-bounds detection: a collection of capacity `n` rejects a path
/// that starts with an index at or beyond `n`, whatever follows it.
pub proof fn lemma_collection_out_of_bounds<T: MerkleTreeOverlay>(
    n: u64,
    list: bool,
    path: Seq<PathElementView>,
    k: u64,
)
    requires
        path.len() >= 1,
        path[0] == PathElementView::Index(k),
        k >= n,
    ensures
        spec_collection_get_node::<T>(n, list, path) == Err::<NodeView, ErrorView>(
            ErrorView::IndexOutOfBounds(k),
        ),
{
}

/// Overlay packing: two distinct in-bounds positions resolve to byte
/// ranges inside `[0, 32)` of their chunks, and when both land in the same
/// chunk the two ranges do not overlap.
pub proof fn lemma_collection_packing_disjoint<T: MerkleTreeOverlay>(
    n: u64,
    list: bool,
    p1: u64,
    p2: u64,
)
    requires
        collection_fits::<T>(n, list),
        p1 < n,
        p2 < n,
        p1 != p2,
    ensures
        ({
            let ra = spec_collection_get_node::<T>(n, list, seq![PathElementView::Index(p1)]);
            let rb = spec_collection_get_node::<T>(n, list, seq![PathElementView::Index(p2)]);
            &&& ra matches Ok(a) && (rb matches Ok(b) && {
                &&& a.offset + a.size <= 32
                &&& b.offset + b.size <= 32
                &&& a.index == b.index ==> (a.offset + a.size <= b.offset || b.offset + b.size
                    <= a.offset)
            })
        }),
{
    T::lemma_overlay_wf();
    lemma_collection_wf::<T>(n, list);
    lemma_chunk_facts::<T>(n, list, p1);
    lemma_chunk_facts::<T>(n, list, p2);
    let m = T::spec_min_repr_size() as int;
    let ipc = items_per_chunk::<T>();
    let h = collection_height::<T>(n, list);
    let c1 = p1 as int / ipc;
    let c2 = p2 as int / ipc;
    let leaf1 = pow2(h) - 1 + c1;
    let leaf2 = pow2(h) - 1 + c2;
    assert(leaf1 < pow2(63) && leaf2 < pow2(63));
    assert(pow2(63) <= u64::MAX) by {
        lemma2_to64_rest();
    }
    if leaf1 as u64 == leaf2 as u64 {
        assert(leaf1 as u64 as int == leaf1);
        assert(leaf2 as u64 as int == leaf2);
        assert(c1 == c2);
        let r1 = p1 as int % ipc;
        let r2 = p2 as int % ipc;
        lemma_fundamental_div_mod(p1 as int, ipc);
        lemma_fundamental_div_mod(p2 as int, ipc);
        assert(r1 != r2);
        if r1 < r2 {
            assert(r1 * m + m <= r2 * m) by (nonlinear_arith)
                requires
                    r1 < r2,
                    m >= 1,
            ;
        } else {
            assert(r2 * m + m <= r1 * m) by (nonlinear_arith)
                requires
                    r2 < r1,
                    m >= 1,
            ;
        }
    }
}

/// Returns a copy of `node` with its index changed to `index`.
pub fn replace_index(node: Node, index: NodeIndex) -> (r: Node)
    ensures
        r@ == (NodeView { index: index, ..node@ }),
{
    Node {
        ident: node.ident,
        index,
        size: node.size,
        offset: node.offset,
        height: node.height,
        is_list: node.is_list,
    }
}

} // verus!
