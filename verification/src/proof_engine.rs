//! A `Proof` is generated from a `SerializedProof` and can manipulate and
//! verify data in the merkle tree.
use vstd::prelude::*;

verus! {

use core::marker::PhantomData;
use crate::NodeIndex;
use crate::backend::{Backend, fill_rel, has_key, l_child, r_child, refresh_rel, spec_is_valid};
use crate::error::{Error, ErrorView};
use crate::merkle_tree_overlay::MerkleTreeOverlay;
use crate::node::NodeView;
use crate::path::PathElement;
use crate::path::PathElementView;
use crate::ser::{pair_count, spec_pairs, spec_sp_equiv, spec_sp_wf, SerializedProof};
use crate::tree_arithmetic::{
    depth_of,
    lemma_index_bound_of_depth,
    sibling_index,
    spec_parent,
    spec_sibling,
};
use vstd::arithmetic::power2::{pow2, lemma_pow2_adds, lemma_pow2_strictly_increases, lemma2_to64,
    lemma2_to64_rest};

/// The store after loading a serialized proof: the windows are written in
/// order, so a later duplicate index overwrites an earlier one.
pub open spec fn spec_load(m: Map<u64, Seq<u8>>, indices: Seq<u64>, chunks: Seq<u8>) -> Map<
    u64,
    Seq<u8>,
>
    decreases indices.len(),
{
    if indices.len() == 0 {
        m
    } else {
        spec_load(
            m.insert(indices[0], chunks.subrange(0, 32)),
            indices.drop_first(),
            chunks.skip(32),
        )
    }
}

/// The sibling of every node on the way from `v` up to the root.
pub open spec fn sibling_path(v: u64) -> Seq<u64>
    decreases v,
{
    if v == 0 {
        Seq::empty()
    } else {
        seq![spec_sibling(v as int) as u64] + sibling_path(spec_parent(v as int) as u64)
    }
}

/// The chunks stored under a list of indices, or the first missing index.
pub open spec fn spec_collect(m: Map<u64, Seq<u8>>, idxs: Seq<u64>) -> Result<Seq<u8>, ErrorView>
    decreases idxs.len(),
{
    if idxs.len() == 0 {
        Ok(Seq::empty())
    } else if !m.dom().contains(idxs[0]) {
        Err(ErrorView::ChunkNotLoaded(idxs[0]))
    } else {
        match spec_collect(m, idxs.drop_first()) {
            Ok(rest) => Ok(m[idxs[0]] + rest),
            Err(e) => Err(e),
        }
    }
}

/// What `extract` returns: the resolved index followed by the siblings on
/// its path to the root, with their chunks, or the first index whose chunk
/// is missing.
pub open spec fn spec_extract<T: MerkleTreeOverlay>(
    m: Map<u64, Seq<u8>>,
    path: Seq<PathElementView>,
) -> Result<(Seq<u64>, Seq<u8>), ErrorView> {
    if path.len() == 0 {
        Err(ErrorView::EmptyPath)
    } else {
        match T::spec_get_node(path) {
            Ok(nd) => {
                let idxs = seq![nd.index] + sibling_path(nd.index);
                match spec_collect(m, idxs) {
                    Ok(ch) => Ok((idxs, ch)),
                    Err(e) => Err(e),
                }
            },
            Err(e) => Err(e),
        }
    }
}

/// What `get_bytes` returns: the addressed slice of the addressed chunk.
pub open spec fn spec_get_bytes<T: MerkleTreeOverlay>(
    m: Map<u64, Seq<u8>>,
    path: Seq<PathElementView>,
) -> Result<Seq<u8>, ErrorView> {
    if path.len() == 0 {
        Err(ErrorView::EmptyPath)
    } else {
        match T::spec_get_node(path) {
            Ok(nd) => if m.dom().contains(nd.index) {
                Ok(m[nd.index].subrange(nd.offset as int, nd.offset as int + nd.size as int))
            } else {
                Err(ErrorView::ChunkNotLoaded(nd.index))
            },
            Err(e) => Err(e),
        }
    }
}

/// A chunk with `bytes` written over its slice `[off, off + |bytes|)`.
pub open spec fn spec_splice(c: Seq<u8>, off: int, bytes: Seq<u8>) -> Seq<u8> {
    c.subrange(0, off) + bytes + c.skip(off + bytes.len())
}

/// What `set_bytes` does: the store it leaves behind and the result it
/// reports.  The write happens only when the path resolves, the addressed
/// chunk is loaded and the bytes match the addressed width exactly.
pub open spec fn spec_set_bytes<T: MerkleTreeOverlay>(
    m: Map<u64, Seq<u8>>,
    path: Seq<PathElementView>,
    bytes: Seq<u8>,
) -> (Map<u64, Seq<u8>>, Result<(), ErrorView>) {
    if path.len() == 0 {
        (m, Err(ErrorView::EmptyPath))
    } else {
        match T::spec_get_node(path) {
            Ok(nd) => if m.dom().contains(nd.index) {
                if bytes.len() == nd.size {
                    (
                        m.insert(nd.index, spec_splice(m[nd.index], nd.offset as int, bytes)),
                        Ok(()),
                    )
                } else {
                    (m, Err(ErrorView::MalformedProof))
                }
            } else {
                (m, Err(ErrorView::ChunkNotLoaded(nd.index)))
            },
            Err(e) => (m, Err(e)),
        }
    }
}

/// Recursively traverses the type's overlay, returning the chunk index,
/// beginning offset, and end offset of the value addressed by `path`.
fn bytes_at_path_helper<T: MerkleTreeOverlay>(path: Vec<PathElement>) -> (r: Result<
    (NodeIndex, usize, usize),
    Error,
>)
    requires
        T::spec_fits(),
    ensures
        ({
            let p = path.deep_view();
            match r {
                Ok(t) => p.len() >= 1 && (T::spec_get_node(p) matches Ok(nd) && t.0 == nd.index
                    && t.1 == nd.offset && t.2 == nd.offset + nd.size && t.0 < u64::MAX
                    && t.2 <= 32),
                Err(e) => if p.len() == 0 {
                    e@ == ErrorView::EmptyPath
                } else {
                    T::spec_get_node(p) == Err::<NodeView, ErrorView>(e@)
                },
            }
        }),
{
    if path.len() == 0 {
        return Err(Error::EmptyPath());
    }
    proof {
        T::lemma_node_bounds(path.deep_view());
        T::lemma_overlay_wf();
    }
    match T::get_node(path) {
        Ok(node) => {
            proof {
                lemma_index_bound_of_depth(node.index as int, T::spec_depth() as nat);
                assert(pow2(T::spec_depth() as nat) <= pow2(62)) by {
                    if T::spec_depth() < 62 {
                        lemma_pow2_strictly_increases(T::spec_depth() as nat, 62);
                    }
                }
                assert(pow2(62) * 2 == pow2(63)) by {
                    lemma_pow2_adds(62, 1);
                    lemma2_to64();
                }
                assert(pow2(63) <= u64::MAX) by {
                    lemma2_to64_rest();
                }
            }
            let begin = node.offset as usize;
            let end = node.offset as usize + node.size as usize;
            Ok((node.index, begin, end))
        },
        Err(e) => Err(e),
    }
}

/// A partial proof: a chunk store together with the overlay `T` that gives
/// its tree indices their meaning.
#[derive(Debug)]
pub struct Proof<T: MerkleTreeOverlay> {
    db: Backend,
    _phantom: PhantomData<T>,
}

impl<T: MerkleTreeOverlay> View for Proof<T> {
    type V = Map<u64, Seq<u8>>;

    closed spec fn view(&self) -> Map<u64, Seq<u8>> {
        self.db@
    }
}

impl<T: MerkleTreeOverlay> Proof<T> {
    /// Initialize a `Proof` directly from a well-formed `SerializedProof`.
    pub fn new(proof: SerializedProof) -> (r: Self)
        requires
            proof.chunks@.len() == 32 * proof.indices@.len(),
            forall|i: int| 0 <= i < proof.indices@.len() ==> #[trigger] proof.indices@[i]
                < u64::MAX,
        ensures
            r@ == spec_load(Map::<u64, Seq<u8>>::empty(), proof.indices@, proof.chunks@),
    {
        let mut ret = Proof { db: Backend::new(), _phantom: PhantomData };
        let _loaded = ret.load(proof);
        ret
    }

    /// Populates the store with a `SerializedProof`, overwriting any chunk
    /// already present under one of its indices.  A proof whose chunk
    /// buffer does not hold exactly 32 bytes per index is rejected.
    pub fn load(&mut self, proof: SerializedProof) -> (r: Result<(), Error>)
        requires
            forall|i: int| 0 <= i < proof.indices@.len() ==> #[trigger] proof.indices@[i]
                < u64::MAX,
        ensures
            if proof.chunks@.len() == 32 * proof.indices@.len() {
                &&& r == Ok::<(), Error>(())
                &&& final(self)@ == spec_load(old(self)@, proof.indices@, proof.chunks@)
            } else {
                &&& r == Err::<(), Error>(Error::MalformedProof)
                &&& final(self)@ == old(self)@
            },
    {
        if !(proof.chunks.len() % 32 == 0 && proof.chunks.len() / 32 == proof.indices.len()) {
            proof {
                vstd::arithmetic::div_mod::lemma_fundamental_div_mod(
                    proof.chunks@.len() as int,
                    32,
                );
            }
            return Err(Error::MalformedProof);
        }
        proof {
            vstd::arithmetic::div_mod::lemma_fundamental_div_mod(proof.chunks@.len() as int, 32);
        }
        let ghost m0 = self@;
        let chunks_len = proof.chunks.len();
        proof {
            assert(proof.indices@.skip(0) =~= proof.indices@);
            assert(proof.chunks@.skip(0) =~= proof.chunks@);
        }
        let mut i: usize = 0;
        while i < proof.indices.len()
            invariant
                i <= proof.indices@.len(),
                proof.chunks@.len() == chunks_len,
                proof.chunks@.len() == 32 * proof.indices@.len(),
                forall|t: int| 0 <= t < proof.indices@.len() ==> #[trigger] proof.indices@[t]
                    < u64::MAX,
                spec_load(
                    self@,
                    proof.indices@.skip(i as int),
                    proof.chunks@.skip(32 * i as int),
                ) == spec_load(m0, proof.indices@, proof.chunks@),
            decreases proof.indices@.len() - i,
        {
            let mut chunk: Vec<u8> = Vec::new();
            let mut k: usize = 0;
            while k < 32
                invariant
                    k <= 32,
                    i < proof.indices@.len(),
                    proof.chunks@.len() == chunks_len,
                    proof.chunks@.len() == 32 * proof.indices@.len(),
                    chunk@ == proof.chunks@.subrange(32 * i as int, 32 * i as int + k as int),
                decreases 32 - k,
            {
                chunk.push(proof.chunks[32 * i + k]);
                proof {
                    assert(proof.chunks@.subrange(
                        32 * i as int,
                        32 * i as int + k as int + 1,
                    ) =~= proof.chunks@.subrange(32 * i as int, 32 * i as int + k as int).push(
                        proof.chunks@[32 * i as int + k as int],
                    ));
                }
                k = k + 1;
            }
            let ghost m_pre = self@;
            self.db.insert(proof.indices[i], chunk);
            proof {
                let idx_rest = proof.indices@.skip(i as int);
                let ch_rest = proof.chunks@.skip(32 * i as int);
                assert(idx_rest[0] == proof.indices@[i as int]);
                assert(ch_rest.subrange(0, 32) =~= proof.chunks@.subrange(
                    32 * i as int,
                    32 * i as int + 32,
                ));
                assert(chunk@ =~= ch_rest.subrange(0, 32));
                assert(idx_rest.drop_first() =~= proof.indices@.skip(i as int + 1));
                assert(ch_rest.skip(32) =~= proof.chunks@.skip(32 * (i as int + 1)));
                assert(spec_load(m_pre, idx_rest, ch_rest) == spec_load(
                    self@,
                    proof.indices@.skip(i as int + 1),
                    proof.chunks@.skip(32 * (i as int + 1)),
                ));
            }
            i = i + 1;
        }
        proof {
            assert(proof.indices@.skip(proof.indices@.len() as int) =~= Seq::<u64>::empty());
        }
        Ok(())
    }

    /// Generates a `SerializedProof` proving that `path` is a part of the
    /// current merkle tree: the addressed chunk and the sibling of every
    /// node on its way to the root.
    #[verifier::loop_isolation(false)]
    pub fn extract(&self, path: Vec<PathElement>) -> (r: Result<SerializedProof, Error>)
        requires
            T::spec_fits(),
        ensures
            match r {
                Ok(sp) => spec_extract::<T>(self@, path.deep_view()) == Ok::<
                    (Seq<u64>, Seq<u8>),
                    ErrorView,
                >((sp.indices@, sp.chunks@)),
                Err(e) => spec_extract::<T>(self@, path.deep_view()) == Err::<
                    (Seq<u64>, Seq<u8>),
                    ErrorView,
                >(e@),
            },
    {
        if path.len() == 0 {
            return Err(Error::EmptyPath());
        }
        proof {
            T::lemma_node_bounds(path.deep_view());
        }
        let node = match T::get_node(path) {
            Ok(node) => node,
            Err(e) => {
                return Err(e);
            },
        };
        proof {
            lemma_index_bound_of_depth(node.index as int, T::spec_depth() as nat);
            assert(pow2(T::spec_depth() as nat) <= pow2(62)) by {
                T::lemma_overlay_wf();
                if T::spec_depth() < 62 {
                    lemma_pow2_strictly_increases(T::spec_depth() as nat, 62);
                }
            }
            assert(pow2(62) * 2 == pow2(63)) by {
                lemma_pow2_adds(62, 1);
                lemma2_to64();
            }
            assert(pow2(63) <= u64::MAX) by {
                lemma2_to64_rest();
            }
        }
        let ghost full = seq![node@.index] + sibling_path(node@.index);
        let mut visitor: u64 = node.index;
        let mut indices: Vec<NodeIndex> = Vec::new();
        indices.push(visitor);
        let mut chunks: Vec<u8> = Vec::new();
        match self.db.get(visitor) {
            Some(c) => {
                push_all(&mut chunks, c.as_slice());
                proof {
                    lemma_collect_push(self@, Seq::<u64>::empty(), visitor);
                    assert(Seq::<u64>::empty().push(visitor) =~= indices@);
                    assert(Seq::<u8>::empty() + self@[visitor] =~= chunks@);
                }
            },
            None => {
                proof {
                    lemma_collect_prefix_error(self@, full, 0);
                }
                return Err(Error::ChunkNotLoaded(visitor));
            },
        }
        while visitor > 0
            invariant
                T::spec_fits(),
                full == seq![node@.index] + sibling_path(node@.index),
                visitor <= node@.index,
                node@.index < pow2(63),
                pow2(63) <= u64::MAX,
                full == indices@ + sibling_path(visitor),
                spec_collect(self@, indices@) == Ok::<Seq<u8>, ErrorView>(chunks@),
            decreases visitor,
        {
            let sibling = sibling_index(visitor);
            proof {
                assert(sibling_path(visitor)[0] == spec_sibling(visitor as int) as u64);
                assert(full[indices@.len() as int] == sibling);
            }
            match self.db.get(sibling) {
                Some(c) => {
                    let ghost idx_pre = indices@;
                    let ghost ch_pre = chunks@;
                    indices.push(sibling);
                    push_all(&mut chunks, c.as_slice());
                    proof {
                        lemma_collect_push(self@, idx_pre, sibling);
                        assert(chunks@ =~= ch_pre + self@[sibling]);
                        assert(sibling_path(visitor).drop_first() =~= sibling_path(
                            spec_parent(visitor as int) as u64,
                        ));
                        assert(full =~= indices@ + sibling_path(
                            spec_parent(visitor as int) as u64,
                        ));
                    }
                },
                None => {
                    proof {
                        assert(full.len() == indices@.len() + sibling_path(visitor).len());
                        lemma_collect_ok_all_present(self@, indices@);
                        assert forall|j: int|
                            0 <= j < indices@.len() implies self@.dom().contains(
                            #[trigger] full[j],
                        ) by {
                            assert(full[j] == indices@[j]);
                        }
                        lemma_collect_prefix_error(self@, full, indices@.len() as int);
                    }
                    return Err(Error::ChunkNotLoaded(sibling));
                },
            }
            visitor = (visitor + 1) / 2 - 1;
        }
        proof {
            assert(sibling_path(0u64) =~= Seq::<u64>::empty());
            assert(indices@ =~= full);
        }
        Ok(SerializedProof { indices, chunks })
    }

    /// Returns the bytes representation of the object associated with
    /// `path`.
    pub fn get_bytes(&self, path: Vec<PathElement>) -> (r: Result<Vec<u8>, Error>)
        requires
            T::spec_fits(),
        ensures
            match r {
                Ok(b) => spec_get_bytes::<T>(self@, path.deep_view()) == Ok::<
                    Seq<u8>,
                    ErrorView,
                >(b@),
                Err(e) => spec_get_bytes::<T>(self@, path.deep_view()) == Err::<
                    Seq<u8>,
                    ErrorView,
                >(e@),
            },
    {
        let (index, begin, end) = match bytes_at_path_helper::<T>(path) {
            Ok(t) => t,
            Err(e) => {
                return Err(e);
            },
        };
        match self.db.get(index) {
            Some(c) => {
                let mut out: Vec<u8> = Vec::new();
                let mut k: usize = begin;
                while k < end
                    invariant
                        begin <= k <= end <= 32,
                        c@.len() == 32,
                        out@ == c@.subrange(begin as int, k as int),
                    decreases end - k,
                {
                    out.push(c[k]);
                    proof {
                        assert(c@.subrange(begin as int, k as int + 1) =~= c@.subrange(
                            begin as int,
                            k as int,
                        ).push(c@[k as int]));
                    }
                    k = k + 1;
                }
                Ok(out)
            },
            None => Err(Error::ChunkNotLoaded(index)),
        }
    }

    /// Replaces the bytes at `path` with `bytes`; the caller must then
    /// `refresh` to repair the hashes of the ancestors.
    pub fn set_bytes(&mut self, path: Vec<PathElement>, bytes: Vec<u8>) -> (r: Result<(), Error>)
        requires
            T::spec_fits(),
        ensures
            final(self)@ == spec_set_bytes::<T>(old(self)@, path.deep_view(), bytes@).0,
            ({
                let expect = spec_set_bytes::<T>(old(self)@, path.deep_view(), bytes@).1;
                match r {
                    Ok(u) => expect == Ok::<(), ErrorView>(()),
                    Err(e) => expect == Err::<(), ErrorView>(e@),
                }
            }),
    {
        let (index, begin, end) = match bytes_at_path_helper::<T>(path) {
            Ok(t) => t,
            Err(e) => {
                return Err(e);
            },
        };
        let chunk = match self.db.get(index) {
            Some(c) => c,
            None => {
                return Err(Error::ChunkNotLoaded(index));
            },
        };
        if bytes.len() != end - begin {
            return Err(Error::MalformedProof);
        }
        let mut spliced: Vec<u8> = Vec::new();
        let mut k: usize = 0;
        while k < 32
            invariant
                k <= 32,
                begin <= end <= 32,
                bytes@.len() == end - begin,
                chunk@.len() == 32,
                spliced@.len() == k,
                forall|t: int|
                    0 <= t < k ==> #[trigger] spliced@[t] == if begin <= t < end {
                        bytes@[t - begin]
                    } else {
                        chunk@[t]
                    },
            decreases 32 - k,
        {
            if begin <= k && k < end {
                spliced.push(bytes[k - begin]);
            } else {
                spliced.push(chunk[k]);
            }
            k = k + 1;
        }
        proof {
            assert(spliced@ =~= spec_splice(chunk@, begin as int, bytes@));
        }
        self.db.insert(index, spliced);
        Ok(())
    }

    /// Determines if the current merkle tree is valid under the given root.
    pub fn is_valid(&self, root: Vec<u8>) -> (r: bool)
        ensures
            r == spec_is_valid(self@, root@),
    {
        self.db.is_valid(root)
    }

    /// Inserts missing nodes into the merkle tree that can be generated
    /// from existing nodes.
    pub fn fill(&mut self) -> (r: Result<(), Error>)
        ensures
            r == Ok::<(), Error>(()),
            fill_rel(old(self)@, final(self)@),
    {
        self.db.fill()
    }

    /// Returns the root node of the proof if it has been calculated.
    pub fn root(&self) -> (r: Option<&Vec<u8>>)
        ensures
            match r {
                Some(c) => self@.dom().contains(0) && c@ == self@[0] && c@.len() == 32,
                None => !self@.dom().contains(0),
            },
    {
        self.db.get(0)
    }

    /// Recalculates all intermediate nodes and the root from the available
    /// leaves.
    pub fn refresh(&mut self) -> (r: Result<(), Error>)
        ensures
            r == Ok::<(), Error>(()),
            refresh_rel(old(self)@, final(self)@),
    {
        self.db.refresh()
    }
}

impl<T: MerkleTreeOverlay> Default for Proof<T> {
    /// A proof with an empty store.
    fn default() -> (r: Self)
        ensures
            r@ == Map::<u64, Seq<u8>>::empty(),
    {
        Proof { db: Backend::new(), _phantom: PhantomData }
    }
}

/// Appends a slice to a byte vector.
fn push_all(dst: &mut Vec<u8>, src: &[u8])
    ensures
        final(dst)@ == old(dst)@ + src@,
{
    let mut i: usize = 0;
    while i < src.len()
        invariant
            i <= src@.len(),
            dst@ == old(dst)@ + src@.subrange(0, i as int),
        decreases src@.len() - i,
    {
        dst.push(src[i]);
        proof {
            assert(old(dst)@ + src@.subrange(0, i as int + 1) =~= (old(dst)@ + src@.subrange(
                0,
                i as int,
            )).push(src@[i as int]));
        }
        i = i + 1;
    }
    proof {
        assert(dst@ =~= old(dst)@ + src@);
    }
}

/// Collecting a list whose prefix is present and whose next index is
/// missing fails with that index.
proof fn lemma_collect_prefix_error(m: Map<u64, Seq<u8>>, idxs: Seq<u64>, i: int)
    requires
        0 <= i < idxs.len(),
        forall|j: int| 0 <= j < i ==> m.dom().contains(#[trigger] idxs[j]),
        !m.dom().contains(idxs[i]),
    ensures
        spec_collect(m, idxs) == Err::<Seq<u8>, ErrorView>(ErrorView::ChunkNotLoaded(idxs[i])),
    decreases i,
{
    if i == 0 {
    } else {
        assert(idxs.drop_first()[i - 1] == idxs[i]);
        assert(forall|j: int|
            0 <= j < i - 1 ==> m.dom().contains(#[trigger] idxs.drop_first()[j]));
        lemma_collect_prefix_error(m, idxs.drop_first(), i - 1);
    }
}

/// Appending a present index to a collected list appends its chunk.
proof fn lemma_collect_push(m: Map<u64, Seq<u8>>, idxs: Seq<u64>, x: u64)
    requires
        m.dom().contains(x),
    ensures
        spec_collect(m, idxs.push(x)) == match spec_collect(m, idxs) {
            Ok(c) => Ok::<Seq<u8>, ErrorView>(c + m[x]),
            Err(e) => Err::<Seq<u8>, ErrorView>(e),
        },
    decreases idxs.len(),
{
    reveal_with_fuel(spec_collect, 3);
    assert(idxs.push(x).len() == idxs.len() + 1);
    if idxs.len() == 0 {
        assert(idxs.push(x)[0] == x);
        assert(idxs.push(x).drop_first() =~= Seq::<u64>::empty());
        assert(m[x] + Seq::<u8>::empty() =~= m[x]);
        assert(Seq::<u8>::empty() + m[x] =~= m[x]);
    } else {
        assert(idxs.push(x)[0] == idxs[0]);
        assert(idxs.push(x).drop_first() =~= idxs.drop_first().push(x));
        lemma_collect_push(m, idxs.drop_first(), x);
        if m.dom().contains(idxs[0]) {
            match spec_collect(m, idxs.drop_first()) {
                Ok(rest) => {
                    assert(m[idxs[0]] + (rest + m[x]) =~= (m[idxs[0]] + rest) + m[x]);
                },
                Err(_) => {},
            }
        }
    }
}

/// The siblings on the way to the root sit at strictly decreasing depths,
/// one per level below the starting node's depth.
proof fn lemma_sibling_path_props(v: u64)
    requires
        v < u64::MAX,
    ensures
        sibling_path(v).len() == depth_of(v as int),
        forall|j: int|
            0 <= j < sibling_path(v).len() ==> depth_of(#[trigger] sibling_path(v)[j] as int)
                == depth_of(v as int) - j && sibling_path(v)[j] < u64::MAX && sibling_path(v)[j]
                > 0,
    decreases v,
{
    if v == 0 {
    } else {
        crate::backend::lemma_family(v);
        let p = spec_parent(v as int) as u64;
        lemma_sibling_path_props(p);
        let s = spec_sibling(v as int) as u64;
        assert(sibling_path(v) == seq![s] + sibling_path(p));
        assert(sibling_path(v)[0] == s);
        assert(depth_of(s as int) == depth_of(v as int)) by {
            crate::tree_arithmetic::lemma_depth_children(p as int);
        }
        assert forall|j: int|
            0 <= j < sibling_path(v).len() implies depth_of(
            #[trigger] sibling_path(v)[j] as int,
        ) == depth_of(v as int) - j && sibling_path(v)[j] < u64::MAX && sibling_path(v)[j]
            > 0 by {
            if j > 0 {
                assert(sibling_path(v)[j] == sibling_path(p)[j - 1]);
            }
        }
    }
}

/// The extraction walk never lists an index twice.
proof fn lemma_walk_no_duplicates(v: u64)
    requires
        v < u64::MAX,
    ensures
        (seq![v] + sibling_path(v)).no_duplicates(),
{
    lemma_sibling_path_props(v);
    let full = seq![v] + sibling_path(v);
    assert forall|i: int, j: int| 0 <= i < j < full.len() implies full[i] != full[j] by {
        if i == 0 {
            if j == 1 {
                assert(full[1] == sibling_path(v)[0]);
                assert(spec_sibling(v as int) != v);
            } else {
                assert(depth_of(full[j] as int) == depth_of(v as int) - (j - 1));
            }
        } else {
            assert(depth_of(full[i] as int) == depth_of(v as int) - (i - 1));
            assert(depth_of(full[j] as int) == depth_of(v as int) - (j - 1));
        }
    }
}

/// Loading does not touch indices outside the loaded list.
proof fn lemma_load_frame(m: Map<u64, Seq<u8>>, idx: Seq<u64>, ch: Seq<u8>, k: u64)
    requires
        !idx.contains(k),
    ensures
        spec_load(m, idx, ch).dom().contains(k) == m.dom().contains(k),
        m.dom().contains(k) ==> spec_load(m, idx, ch)[k] == m[k],
    decreases idx.len(),
{
    if idx.len() > 0 {
        assert(idx[0] != k);
        assert(!idx.drop_first().contains(k)) by {
            if idx.drop_first().contains(k) {
                let j = choose|j: int|
                    0 <= j < idx.drop_first().len() && idx.drop_first()[j] == k;
                assert(idx[j + 1] == k);
            }
        }
        lemma_load_frame(m.insert(idx[0], ch.subrange(0, 32)), idx.drop_first(), ch.skip(32), k);
    }
}

/// The domain after a load is the old domain plus the loaded indices.
proof fn lemma_load_dom(m: Map<u64, Seq<u8>>, idx: Seq<u64>, ch: Seq<u8>)
    ensures
        forall|k: u64| #[trigger]
            spec_load(m, idx, ch).dom().contains(k) <==> (m.dom().contains(k) || idx.contains(
                k,
            )),
    decreases idx.len(),
{
    if idx.len() > 0 {
        let m1 = m.insert(idx[0], ch.subrange(0, 32));
        lemma_load_dom(m1, idx.drop_first(), ch.skip(32));
        assert(spec_load(m, idx, ch) == spec_load(m1, idx.drop_first(), ch.skip(32)));
        assert forall|k: u64| #[trigger]
            spec_load(m, idx, ch).dom().contains(k) <==> (m.dom().contains(k) || idx.contains(
                k,
            )) by {
            assert(spec_load(m1, idx.drop_first(), ch.skip(32)).dom().contains(k) <==> (
            m1.dom().contains(k) || idx.drop_first().contains(k)));
            if spec_load(m, idx, ch).dom().contains(k) {
                if m1.dom().contains(k) {
                    if k == idx[0] {
                        assert(idx.contains(k));
                    }
                } else {
                    assert(idx.drop_first().contains(k));
                    let j = choose|j: int|
                        0 <= j < idx.drop_first().len() && idx.drop_first()[j] == k;
                    assert(idx[j + 1] == k);
                    assert(idx.contains(k));
                }
            }
            if m.dom().contains(k) {
                assert(m1.dom().contains(k) || k == idx[0]);
                assert(spec_load(m, idx, ch).dom().contains(k));
            }
            if idx.contains(k) {
                let j = choose|j: int| 0 <= j < idx.len() && idx[j] == k;
                if j == 0 {
                    assert(m1.dom().contains(k));
                } else {
                    assert(idx.drop_first()[j - 1] == k);
                    assert(idx.drop_first().contains(k));
                }
                assert(spec_load(m, idx, ch).dom().contains(k));
            }
        }
    }
}

/// Loading a duplicate-free proof stores each index's own 32-byte window.
proof fn lemma_load_values(m: Map<u64, Seq<u8>>, idx: Seq<u64>, ch: Seq<u8>)
    requires
        idx.no_duplicates(),
        ch.len() == 32 * idx.len(),
    ensures
        forall|i: int|
            0 <= i < idx.len() ==> spec_load(m, idx, ch).dom().contains(#[trigger] idx[i])
                && spec_load(m, idx, ch)[idx[i]] == ch.subrange(32 * i, 32 * i + 32),
    decreases idx.len(),
{
    if idx.len() > 0 {
        let m1 = m.insert(idx[0], ch.subrange(0, 32));
        lemma_load_values(m1, idx.drop_first(), ch.skip(32));
        assert forall|i: int|
            0 <= i < idx.len() implies spec_load(m, idx, ch).dom().contains(#[trigger] idx[i])
            && spec_load(m, idx, ch)[idx[i]] == ch.subrange(32 * i, 32 * i + 32) by {
            if i == 0 {
                assert(!idx.drop_first().contains(idx[0])) by {
                    if idx.drop_first().contains(idx[0]) {
                        let j = choose|j: int|
                            0 <= j < idx.drop_first().len() && idx.drop_first()[j] == idx[0];
                        assert(idx[j + 1] == idx[0]);
                    }
                }
                lemma_load_frame(m1, idx.drop_first(), ch.skip(32), idx[0]);
            } else {
                assert(idx.drop_first()[i - 1] == idx[i]);
                assert(ch.skip(32).subrange(32 * (i - 1), 32 * (i - 1) + 32) =~= ch.subrange(
                    32 * i,
                    32 * i + 32,
                ));
            }
        }
    }
}

/// Collecting a list of present 32-byte chunks yields their concatenation.
proof fn lemma_collect_of_present(m: Map<u64, Seq<u8>>, idxs: Seq<u64>)
    requires
        forall|i: int| 0 <= i < idxs.len() ==> m.dom().contains(#[trigger] idxs[i]),
        forall|i: int| 0 <= i < idxs.len() ==> m[#[trigger] idxs[i]].len() == 32,
    ensures
        spec_collect(m, idxs) matches Ok(v) && v.len() == 32 * idxs.len() && (forall|i: int|
            0 <= i < idxs.len() ==> v.subrange(32 * i, 32 * i + 32) == m[#[trigger] idxs[i]]),
    decreases idxs.len(),
{
    if idxs.len() > 0 {
        lemma_collect_of_present(m, idxs.drop_first());
        let rest = spec_collect(m, idxs.drop_first())->Ok_0;
        let v = m[idxs[0]] + rest;
        assert(spec_collect(m, idxs) == Ok::<Seq<u8>, ErrorView>(v));
        assert forall|i: int|
            0 <= i < idxs.len() implies v.subrange(32 * i, 32 * i + 32) == m[
        #[trigger] idxs[i]] by {
            if i == 0 {
                assert(v.subrange(0, 32) =~= m[idxs[0]]);
            } else {
                assert(idxs.drop_first()[i - 1] == idxs[i]);
                assert(v.subrange(32 * i, 32 * i + 32) =~= rest.subrange(
                    32 * (i - 1),
                    32 * (i - 1) + 32,
                ));
            }
        }
    }
}

/// In a pair list with pairwise distinct first components, each pair
/// occurs exactly once.
proof fn lemma_pair_count_unique(s: Seq<(u64, Seq<u8>)>, j: int)
    requires
        forall|i1: int, i2: int|
            0 <= i1 < s.len() && 0 <= i2 < s.len() && i1 != i2 ==> (#[trigger] s[i1]).0 != (
            #[trigger] s[i2]).0,
        0 <= j < s.len(),
    ensures
        pair_count(s, s[j]) == 1,
    decreases s.len(),
{
    if j == 0 {
        assert(forall|i: int|
            0 <= i < s.drop_first().len() ==> (#[trigger] s.drop_first()[i]) == s[i + 1]);
        lemma_pair_count_absent(s.drop_first(), s[0]);
    } else {
        assert(s[0] != s[j]) by {
            assert(s[0].0 != s[j].0);
        }
        assert(s.drop_first()[j - 1] == s[j]);
        lemma_pair_count_unique(s.drop_first(), j - 1);
    }
}

/// A pair that appears nowhere in the list has count zero.
proof fn lemma_pair_count_absent(s: Seq<(u64, Seq<u8>)>, x: (u64, Seq<u8>))
    requires
        forall|i: int| 0 <= i < s.len() ==> (#[trigger] s[i]) != x,
    ensures
        pair_count(s, x) == 0,
    decreases s.len(),
{
    if s.len() > 0 {
        assert(forall|i: int|
            0 <= i < s.drop_first().len() ==> (#[trigger] s.drop_first()[i]) == s[i + 1]);
        lemma_pair_count_absent(s.drop_first(), x);
    }
}

/// Round-trip of `extract`: loading a well-formed, duplicate-free minimal
/// proof for a path into an empty store and then extracting that path
/// yields a serialized proof carrying exactly the same set of
/// (index, chunk) pairs as the one loaded.  A proof is minimal for a path
/// when its indices are exactly the resolved index and the siblings on the
/// way from it to the root.
pub proof fn lemma_extract_roundtrip<T: MerkleTreeOverlay>(
    indices: Seq<u64>,
    chunks: Seq<u8>,
    path: Seq<PathElementView>,
    nd: NodeView,
)
    requires
        T::spec_fits(),
        path.len() >= 1,
        T::spec_get_node(path) == Ok::<NodeView, ErrorView>(nd),
        spec_sp_wf(indices, chunks),
        indices.no_duplicates(),
        indices.to_set() == (seq![nd.index] + sibling_path(nd.index)).to_set(),
    ensures
        ({
            let m = spec_load(Map::<u64, Seq<u8>>::empty(), indices, chunks);
            spec_extract::<T>(m, path) matches Ok(res) && spec_sp_equiv(
                res.0,
                res.1,
                indices,
                chunks,
            )
        }),
{
    T::lemma_node_bounds(path);
    T::lemma_overlay_wf();
    lemma_index_bound_of_depth(nd.index as int, T::spec_depth() as nat);
    assert(pow2(T::spec_depth() as nat) <= pow2(62)) by {
        if T::spec_depth() < 62 {
            lemma_pow2_strictly_increases(T::spec_depth() as nat, 62);
        }
    }
    assert(pow2(62) * 2 == pow2(63)) by {
        lemma_pow2_adds(62, 1);
        lemma2_to64();
    }
    assert(pow2(63) <= u64::MAX) by {
        lemma2_to64_rest();
    }
    let v0 = nd.index;
    let full = seq![v0] + sibling_path(v0);
    let m = spec_load(Map::<u64, Seq<u8>>::empty(), indices, chunks);
    lemma_walk_no_duplicates(v0);
    // both sequences list the same keys, so they have the same length
    indices.unique_seq_to_set();
    full.unique_seq_to_set();
    assert(indices.len() == full.len());
    lemma_load_dom(Map::<u64, Seq<u8>>::empty(), indices, chunks);
    lemma_load_values(Map::<u64, Seq<u8>>::empty(), indices, chunks);
    // every key of the walk is present with a 32-byte chunk
    assert forall|j: int| 0 <= j < full.len() implies m.dom().contains(#[trigger] full[j]) by {
        assert(full.to_set().contains(full[j]));
        assert(indices.contains(full[j]));
    }
    assert forall|j: int| 0 <= j < full.len() implies m[#[trigger] full[j]].len() == 32 by {
        assert(indices.contains(full[j]));
        let i = choose|i: int| 0 <= i < indices.len() && indices[i] == full[j];
        assert(m[indices[i]] == chunks.subrange(32 * i, 32 * i + 32));
    }
    lemma_collect_of_present(m, full);
    let v = spec_collect(m, full)->Ok_0;
    assert(spec_extract::<T>(m, path) == Ok::<(Seq<u64>, Seq<u8>), ErrorView>((full, v)));
    // the two proofs carry the same set of pairs
    let pf = spec_pairs(full, v);
    let ps = spec_pairs(indices, chunks);
    assert(spec_sp_wf(full, v));
    assert forall|j: int| 0 <= j < pf.len() implies (#[trigger] pf[j]).1 == m[full[j]] by {
        assert(pf[j].1 == v.subrange(32 * j, 32 * j + 32));
    }
    assert forall|i: int| 0 <= i < ps.len() implies (#[trigger] ps[i]).1 == m[indices[i]] by {
        assert(ps[i].1 == chunks.subrange(32 * i, 32 * i + 32));
    }
    assert forall|i: int|
        0 <= i < ps.len() implies pair_count(ps, #[trigger] ps[i]) == pair_count(pf, ps[i]) by {
        lemma_pair_count_unique(ps, i);
        assert(full.contains(indices[i])) by {
            assert(indices.to_set().contains(indices[i]));
        }
        let j = choose|j: int| 0 <= j < full.len() && full[j] == indices[i];
        assert(pf[j] == ps[i]);
        lemma_pair_count_unique(pf, j);
        assert(pair_count(pf, ps[i]) == 1);
    }
    assert forall|j: int|
        0 <= j < pf.len() implies pair_count(ps, #[trigger] pf[j]) == pair_count(pf, pf[j]) by {
        lemma_pair_count_unique(pf, j);
        assert(indices.contains(full[j])) by {
            assert(full.to_set().contains(full[j]));
        }
        let i = choose|i: int| 0 <= i < indices.len() && indices[i] == full[j];
        assert(ps[i] == pf[j]);
        lemma_pair_count_unique(ps, i);
        assert(pair_count(ps, pf[j]) == 1);
    }
    assert(spec_sp_equiv(full, v, indices, chunks));
}

/// `set_bytes` locality: writing `bytes` at a resolvable path whose chunk
/// is loaded succeeds; after a refresh, reading the path back returns
/// exactly `bytes`, and every other chunk that the refresh could not
/// recompute (one whose children are not both present) still holds the
/// bytes it held before the write.
pub proof fn lemma_set_bytes_locality<T: MerkleTreeOverlay>(
    m0: Map<u64, Seq<u8>>,
    m2: Map<u64, Seq<u8>>,
    path: Seq<PathElementView>,
    bytes: Seq<u8>,
    nd: NodeView,
)
    requires
        T::spec_fits(),
        path.len() >= 1,
        T::spec_get_node(path) == Ok::<NodeView, ErrorView>(nd),
        m0.dom().contains(nd.index),
        m0[nd.index].len() == 32,
        bytes.len() == nd.size,
        refresh_rel(spec_set_bytes::<T>(m0, path, bytes).0, m2),
        !(has_key(m2, l_child(nd.index)) && has_key(m2, r_child(nd.index))),
    ensures
        spec_set_bytes::<T>(m0, path, bytes).1 == Ok::<(), ErrorView>(()),
        spec_get_bytes::<T>(m2, path) == Ok::<Seq<u8>, ErrorView>(bytes),
        forall|w: u64|
            m0.dom().contains(w) && w != nd.index && !(has_key(m2, #[trigger] l_child(w))
                && has_key(m2, r_child(w))) ==> m2.dom().contains(w) && m2[w] == m0[w],
{
    T::lemma_node_bounds(path);
    let m1 = spec_set_bytes::<T>(m0, path, bytes).0;
    let spliced = spec_splice(m0[nd.index], nd.offset as int, bytes);
    assert(m1 == m0.insert(nd.index, spliced));
    assert(m1.dom().contains(nd.index));
    assert(m2.dom().contains(nd.index));
    assert(m2[nd.index] == m1[nd.index]);
    assert(m2[nd.index] == spliced);
    assert(spliced.subrange(nd.offset as int, nd.offset as int + nd.size as int) =~= bytes);
    assert forall|w: u64|
        m0.dom().contains(w) && w != nd.index && !(has_key(m2, #[trigger] l_child(w)) && has_key(
            m2,
            r_child(w),
        )) implies m2.dom().contains(w) && m2[w] == m0[w] by {
        assert(m1.dom().contains(w));
        assert(m1[w] == m0[w]);
        assert(m2.dom().contains(w));
        assert(m2[w] == m1[w]);
    }
}

/// A successfully collected list has every index present.
proof fn lemma_collect_ok_all_present(m: Map<u64, Seq<u8>>, idxs: Seq<u64>)
    requires
        spec_collect(m, idxs) matches Ok(_),
    ensures
        forall|j: int| 0 <= j < idxs.len() ==> m.dom().contains(#[trigger] idxs[j]),
    decreases idxs.len(),
{
    if idxs.len() > 0 {
        lemma_collect_ok_all_present(m, idxs.drop_first());
        assert forall|j: int| 0 <= j < idxs.len() implies m.dom().contains(
            #[trigger] idxs[j],
        ) by {
            if j > 0 {
                assert(idxs.drop_first()[j - 1] == idxs[j]);
            }
        }
    }
}

} // verus!
