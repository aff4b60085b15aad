//! The chunk store: a sparse mapping from tree indices to 32-byte chunks,
//! together with the hashing that ties parents to their children.
use vstd::prelude::*;

verus! {

use crate::NodeIndex;
use crate::error::Error;
use crate::tree_arithmetic::{expand_tree_index, spec_left, spec_parent, spec_right, spec_sibling};
use sha2::{Digest, Sha256};

/// The SHA-256 digest of a byte sequence.  The digest is a function of the
/// input bytes alone; nothing further is assumed of its value.
pub uninterp spec fn sha256_digest(bytes: Seq<u8>) -> Seq<u8>;

/// The chunk obtained by hashing the concatenation of two child chunks.
pub open spec fn spec_hash_children(left: Seq<u8>, right: Seq<u8>) -> Seq<u8> {
    sha256_digest(left + right)
}

/// Relies on `sha2::Sha256::digest`: the SHA-256 digest of the input, which
/// is 32 bytes long and depends on the input bytes alone.
#[verifier::external_body]
fn sha256(input: &[u8]) -> (r: Vec<u8>)
    ensures
        r@ == sha256_digest(input@),
        r@.len() == 32,
{
    Sha256::digest(input).as_slice().to_vec()
}

/// Helper function that appends `right` to `left` and hashes the result.
pub fn hash_children(left: &[u8], right: &[u8]) -> (r: Vec<u8>)
    ensures
        r@ == spec_hash_children(left@, right@),
        r@.len() == 32,
{
    let mut children: Vec<u8> = Vec::new();
    let mut i: usize = 0;
    while i < left.len()
        invariant
            i <= left@.len(),
            children@ == left@.subrange(0, i as int),
        decreases left@.len() - i,
    {
        children.push(left[i]);
        i = i + 1;
    }
    let mut j: usize = 0;
    while j < right.len()
        invariant
            j <= right@.len(),
            children@ == left@ + right@.subrange(0, j as int),
        decreases right@.len() - j,
    {
        children.push(right[j]);
        j = j + 1;
    }
    proof {
        assert(children@ =~= left@ + right@);
    }
    sha256(children.as_slice())
}

/// Compares two byte slices for equality.
pub fn bytes_eq(a: &[u8], b: &[u8]) -> (r: bool)
    ensures
        r == (a@ == b@),
{
    if a.len() != b.len() {
        return false;
    }
    let mut i: usize = 0;
    while i < a.len()
        invariant
            a@.len() == b@.len(),
            i <= a@.len(),
            forall|j: int| 0 <= j < i ==> a@[j] == b@[j],
        decreases a@.len() - i,
    {
        if a[i] != b[i] {
            return false;
        }
        i = i + 1;
    }
    proof {
        assert(a@ =~= b@);
    }
    true
}

/// Whether `i` is a representable tree index present in the store.
pub open spec fn has_key(m: Map<u64, Seq<u8>>, i: int) -> bool {
    0 <= i <= u64::MAX && m.dom().contains(i as u64)
}

/// The chunk stored under a representable tree index.
pub open spec fn chunk_at(m: Map<u64, Seq<u8>>, i: int) -> Seq<u8> {
    m[i as u64]
}

/// The left child of `p` in the unbounded index space.
pub open spec fn l_child(p: u64) -> int {
    2 * p + 1
}

/// The right child of `p` in the unbounded index space.
pub open spec fn r_child(p: u64) -> int {
    2 * p + 2
}

/// The parent of `n`; the root is its own parent.
pub open spec fn parent_of(n: u64) -> u64 {
    spec_parent(n as int) as u64
}

/// The family around parent `p` is fully present and the parent's chunk is
/// the hash of its children's chunks.
pub open spec fn family_consistent(m: Map<u64, Seq<u8>>, p: u64) -> bool {
    &&& has_key(m, l_child(p))
    &&& has_key(m, r_child(p))
    &&& m.dom().contains(p)
    &&& m[p] == spec_hash_children(chunk_at(m, l_child(p)), chunk_at(m, r_child(p)))
}

/// What a valid tree looks like: every present non-root node belongs to a
/// fully present, hash-consistent family, and the root chunk equals `root`.
pub open spec fn spec_is_valid(m: Map<u64, Seq<u8>>, root: Seq<u8>) -> bool {
    &&& forall|n: u64| #[trigger]
        m.dom().contains(n) && n > 0 ==> family_consistent(m, parent_of(n))
    &&& m.dom().contains(0)
    &&& m[0] == root
}

/// How `fill` changes the store: existing entries are kept unchanged, every
/// new entry is the hash of its two present children, and afterwards every
/// pair of present siblings has its parent present.
pub open spec fn fill_rel(m0: Map<u64, Seq<u8>>, m1: Map<u64, Seq<u8>>) -> bool {
    &&& m0.submap_of(m1)
    &&& forall|p: u64| #[trigger]
        m1.dom().contains(p) && !m0.dom().contains(p) ==> {
            &&& has_key(m1, l_child(p))
            &&& has_key(m1, r_child(p))
            &&& m1[p] == spec_hash_children(chunk_at(m1, l_child(p)), chunk_at(m1, r_child(p)))
        }
    &&& forall|p: u64|
        has_key(m1, #[trigger] l_child(p)) && has_key(m1, r_child(p)) ==> m1.dom().contains(p)
}

/// How `refresh` changes the store: every node whose two children are
/// present afterwards holds the hash of those children, and every other node
/// is carried over from the old store unchanged.
pub open spec fn refresh_rel(m0: Map<u64, Seq<u8>>, m1: Map<u64, Seq<u8>>) -> bool {
    &&& m0.dom().subset_of(m1.dom())
    &&& forall|p: u64|
        has_key(m1, #[trigger] l_child(p)) && has_key(m1, r_child(p)) ==> {
            &&& m1.dom().contains(p)
            &&& m1[p] == spec_hash_children(chunk_at(m1, l_child(p)), chunk_at(m1, r_child(p)))
        }
    &&& forall|n: u64| #[trigger]
        m1.dom().contains(n) && !(has_key(m1, l_child(n)) && has_key(m1, r_child(n))) ==> {
            &&& m0.dom().contains(n)
            &&& m1[n] == m0[n]
        }
}

/// Stores the mapping of nodes to their chunks.
#[derive(Debug)]
pub struct Backend {
    db: Vec<(u64, Vec<u8>)>,
}

impl View for Backend {
    type V = Map<u64, Seq<u8>>;

    closed spec fn view(&self) -> Map<u64, Seq<u8>> {
        seq_map(self.db@)
    }
}

/// The mapping described by a sequence of key/chunk entries.
spec fn seq_map(s: Seq<(u64, Vec<u8>)>) -> Map<u64, Seq<u8>> {
    Map::new(
        |k: u64| exists|i: int| 0 <= i < s.len() && (#[trigger] s[i]).0 == k,
        |k: u64| s[entry_index(s, k)].1@,
    )
}

/// The position of the entry holding key `k`.
spec fn entry_index(s: Seq<(u64, Vec<u8>)>, k: u64) -> int {
    choose|i: int| 0 <= i < s.len() && (#[trigger] s[i]).0 == k
}

/// The keys of an entry sequence are pairwise distinct.
spec fn keys_distinct(s: Seq<(u64, Vec<u8>)>) -> bool {
    forall|i: int, j: int|
        0 <= i < s.len() && 0 <= j < s.len() && i != j ==> (#[trigger] s[i]).0 != (
        #[trigger] s[j]).0
}

/// With distinct keys, the entry at position `i` is the one the map reads.
proof fn lemma_seq_map_value(s: Seq<(u64, Vec<u8>)>, i: int)
    requires
        keys_distinct(s),
        0 <= i < s.len(),
    ensures
        seq_map(s).dom().contains(s[i].0),
        seq_map(s)[s[i].0] == s[i].1@,
{
    let k = s[i].0;
    let j = entry_index(s, k);
    assert(0 <= j < s.len() && s[j].0 == k);
    assert(j == i);
}

/// Appending an entry with a fresh key inserts it into the mapping.
proof fn lemma_seq_map_push(s: Seq<(u64, Vec<u8>)>, index: u64, chunk: Vec<u8>)
    requires
        keys_distinct(s),
        forall|i: int| 0 <= i < s.len() ==> (#[trigger] s[i]).0 != index,
    ensures
        seq_map(s.push((index, chunk))) == seq_map(s).insert(index, chunk@),
        keys_distinct(s.push((index, chunk))),
{
    let s2 = s.push((index, chunk));
    assert forall|k: u64| #[trigger]
        seq_map(s2).dom().contains(k) implies seq_map(s).insert(index, chunk@).dom().contains(
        k,
    ) by {
        let i = choose|i: int| 0 <= i < s2.len() && (#[trigger] s2[i]).0 == k;
        if i < s.len() {
            assert(s[i].0 == k);
        }
    }
    assert forall|k: u64| #[trigger]
        seq_map(s).insert(index, chunk@).dom().contains(k) implies seq_map(s2).dom().contains(
        k,
    ) by {
        if k == index {
            assert(s2[s.len() as int].0 == k);
        } else {
            let i = choose|i: int| 0 <= i < s.len() && (#[trigger] s[i]).0 == k;
            assert(s2[i].0 == k);
        }
    }
    assert forall|k: u64| seq_map(s2).dom().contains(k) implies seq_map(s2)[k] == seq_map(
        s,
    ).insert(index, chunk@)[k] by {
        let j = entry_index(s2, k);
        assert(0 <= j < s2.len() && s2[j].0 == k);
        if k == index {
            assert(j == s.len());
        } else {
            assert(j < s.len());
            lemma_seq_map_value(s, j);
            assert(entry_index(s, k) == j);
        }
    }
    assert(seq_map(s2) =~= seq_map(s).insert(index, chunk@));
}

/// Replacing the entry that holds a key overwrites it in the mapping.
proof fn lemma_seq_map_update(s: Seq<(u64, Vec<u8>)>, i: int, index: u64, chunk: Vec<u8>)
    requires
        keys_distinct(s),
        0 <= i < s.len(),
        s[i].0 == index,
    ensures
        seq_map(s.update(i, (index, chunk))) == seq_map(s).insert(index, chunk@),
        keys_distinct(s.update(i, (index, chunk))),
{
    let s2 = s.update(i, (index, chunk));
    assert forall|k: u64| #[trigger]
        seq_map(s2).dom().contains(k) implies seq_map(s).insert(index, chunk@).dom().contains(
        k,
    ) by {
        let j = choose|j: int| 0 <= j < s2.len() && (#[trigger] s2[j]).0 == k;
        if j != i {
            assert(s[j].0 == k);
        }
    }
    assert forall|k: u64| #[trigger]
        seq_map(s).insert(index, chunk@).dom().contains(k) implies seq_map(s2).dom().contains(
        k,
    ) by {
        if k == index {
            assert(s2[i].0 == k);
        } else {
            let j = choose|j: int| 0 <= j < s.len() && (#[trigger] s[j]).0 == k;
            assert(j != i);
            assert(s2[j].0 == k);
        }
    }
    assert forall|k: u64| seq_map(s2).dom().contains(k) implies seq_map(s2)[k] == seq_map(
        s,
    ).insert(index, chunk@)[k] by {
        let j = entry_index(s2, k);
        assert(0 <= j < s2.len() && s2[j].0 == k);
        if k == index {
            assert(j == i);
        } else {
            assert(j != i);
            assert(s[j].0 == k);
            lemma_seq_map_value(s, j);
            assert(entry_index(s, k) == j);
        }
    }
    assert(seq_map(s2) =~= seq_map(s).insert(index, chunk@));
}

impl Backend {
    /// Each index has at most one entry, every chunk is exactly 32 bytes,
    /// and no entry uses the one index whose children would not be
    /// representable.
    #[verifier::type_invariant]
    spec fn wf(&self) -> bool {
        &&& keys_distinct(self.db@)
        &&& forall|i: int|
            0 <= i < self.db@.len() ==> (#[trigger] self.db@[i]).1@.len() == 32
        &&& forall|i: int| 0 <= i < self.db@.len() ==> (#[trigger] self.db@[i]).0 < u64::MAX
    }

    /// The position of `index`'s entry, if the store holds one.
    fn find(&self, index: NodeIndex) -> (r: Option<usize>)
        ensures
            match r {
                Some(i) => i < self.db@.len() && self.db@[i as int].0 == index,
                None => forall|i: int| 0 <= i < self.db@.len() ==> (#[trigger] self.db@[i]).0 != index,
            },
    {
        let mut i: usize = 0;
        while i < self.db.len()
            invariant
                i <= self.db@.len(),
                forall|j: int| 0 <= j < i ==> (#[trigger] self.db@[j]).0 != index,
            decreases self.db@.len() - i,
        {
            if self.db[i].0 == index {
                return Some(i);
            }
            i = i + 1;
        }
        None
    }

    /// Instantiate an empty store.
    pub fn new() -> (r: Self)
        ensures
            r@ == Map::<u64, Seq<u8>>::empty(),
    {
        let r = Backend { db: Vec::new() };
        proof {
            assert(r@ =~= Map::<u64, Seq<u8>>::empty());
        }
        r
    }

    /// Gets a reference to the chunk corresponding to the node index.
    pub fn get(&self, index: NodeIndex) -> (r: Option<&Vec<u8>>)
        ensures
            match r {
                Some(c) => self@.dom().contains(index) && c@ == self@[index] && c@.len() == 32,
                None => !self@.dom().contains(index),
            },
    {
        proof {
            use_type_invariant(&*self);
        }
        match self.find(index) {
            Some(i) => Some(&self.db[i].1),
            None => None,
        }
    }

    /// Sets the chunk for the node index and returns the old value.
    ///
    /// A chunk is always exactly 32 bytes, and the index must leave room for
    /// both children of the node in the 64-bit index space.
    pub fn insert(&mut self, index: NodeIndex, chunk: Vec<u8>) -> (r: Option<Vec<u8>>)
        requires
            chunk@.len() == 32,
            index < u64::MAX,
        ensures
            final(self)@ == old(self)@.insert(index, chunk@),
            match r {
                Some(c) => old(self)@.dom().contains(index) && c@ == old(self)@[index],
                None => !old(self)@.dom().contains(index),
            },
    {
        proof {
            use_type_invariant(&*self);
        }
        let ghost s0 = self.db@;
        let found = self.find(index);
        let mut db: Vec<(u64, Vec<u8>)> = Vec::new();
        core::mem::swap(&mut db, &mut self.db);
        let prior: Option<Vec<u8>> = match found {
            Some(i) => {
                let mut pair = (index, chunk);
                let ghost pair0 = pair;
                db.set_and_swap(i, &mut pair);
                proof {
                    lemma_seq_map_value(s0, i as int);
                    lemma_seq_map_update(s0, i as int, index, pair0.1);
                    assert(db@ == s0.update(i as int, pair0));
                    assert(pair0 == (index, pair0.1));
                }
                Some(pair.1)
            },
            None => {
                db.push((index, chunk));
                proof {
                    lemma_seq_map_push(s0, index, chunk);
                }
                None
            },
        };
        self.db = db;
        prior
    }

    /// Retrieves a vector of loaded node indices; each present index appears
    /// exactly once, in no particular order.
    pub fn nodes(&self) -> (r: Vec<NodeIndex>)
        ensures
            forall|k: u64| r@.contains(k) <==> self@.dom().contains(k),
            r@.no_duplicates(),
            forall|i: int| 0 <= i < r@.len() ==> r@[i] < u64::MAX,
    {
        proof {
            use_type_invariant(&*self);
        }
        let mut r: Vec<u64> = Vec::new();
        let mut i: usize = 0;
        while i < self.db.len()
            invariant
                self.wf(),
                i <= self.db@.len(),
                r@.len() == i,
                forall|j: int| 0 <= j < i ==> r@[j] == (#[trigger] self.db@[j]).0,
            decreases self.db@.len() - i,
        {
            r.push(self.db[i].0);
            i = i + 1;
        }
        proof {
            assert forall|k: u64| r@.contains(k) <==> self@.dom().contains(k) by {
                if r@.contains(k) {
                    let j = choose|j: int| 0 <= j < r@.len() && r@[j] == k;
                    assert(self.db@[j].0 == k);
                }
                if self@.dom().contains(k) {
                    let j = entry_index(self.db@, k);
                    assert(0 <= j < self.db@.len() && self.db@[j].0 == k);
                    assert(r@[j] == k);
                }
            }
            assert forall|i2: int, j2: int|
                0 <= i2 < j2 < r@.len() implies r@[i2] != r@[j2] by {
                assert(r@[i2] == self.db@[i2].0);
                assert(r@[j2] == self.db@[j2].0);
            }
            assert forall|i2: int| 0 <= i2 < r@.len() implies r@[i2] < u64::MAX by {
                assert(r@[i2] == self.db@[i2].0);
            }
        }
        r
    }

    /// Returns `true` if the store contains a chunk for the specified index.
    pub fn contains_node(&self, index: NodeIndex) -> (r: bool)
        ensures
            r == self@.dom().contains(index),
    {
        proof {
            use_type_invariant(&*self);
        }
        match self.find(index) {
            Some(_) => true,
            None => false,
        }
    }
}

/// The termination measure for the traversal worklists: the sum of `x + 1`
/// over the elements of the window still to be processed.  Processing an
/// element removes it from the window and adds at most its parent, which is
/// strictly smaller.
spec fn weight_sum(s: Seq<u64>) -> nat
    decreases s.len(),
{
    if s.len() == 0 {
        0
    } else {
        (s[0] + 1) as nat + weight_sum(s.drop_first())
    }
}

proof fn lemma_weight_sum_unfold(s: Seq<u64>, i: int)
    requires
        0 <= i < s.len(),
    ensures
        weight_sum(s.skip(i)) == s[i] + 1 + weight_sum(s.skip(i + 1)),
{
    assert(s.skip(i).len() > 0);
    assert(s.skip(i)[0] == s[i]);
    assert(s.skip(i).drop_first() =~= s.skip(i + 1));
}

proof fn lemma_weight_sum_push(s: Seq<u64>, x: u64)
    ensures
        weight_sum(s.push(x)) == weight_sum(s) + x + 1,
    decreases s.len(),
{
    reveal_with_fuel(weight_sum, 3);
    assert(s.push(x).len() == s.len() + 1);
    if s.len() == 0 {
        assert(s.push(x)[0] == x);
        assert(s.push(x).drop_first() =~= Seq::<u64>::empty());
    } else {
        assert(s.push(x)[0] == s[0]);
        assert(s.push(x).drop_first() =~= s.drop_first().push(x));
        lemma_weight_sum_push(s.drop_first(), x);
    }
}

proof fn lemma_weight_sum_push_skip(s: Seq<u64>, x: u64, i: int)
    requires
        0 <= i <= s.len(),
    ensures
        weight_sum(s.push(x).skip(i)) == weight_sum(s.skip(i)) + x + 1,
{
    assert(s.push(x).skip(i) =~= s.skip(i).push(x));
    lemma_weight_sum_push(s.skip(i), x);
}

/// The family of a non-root node `n`: its sibling shares the parent, and the
/// two of them are exactly the parent's children.
pub(crate) proof fn lemma_family(n: u64)
    requires
        0 < n < u64::MAX,
    ensures
        spec_parent(spec_sibling(n as int)) == parent_of(n),
        0 < spec_sibling(n as int) < u64::MAX,
        (l_child(parent_of(n)) == n && r_child(parent_of(n)) == spec_sibling(n as int)) || (
        l_child(parent_of(n)) == spec_sibling(n as int) && r_child(parent_of(n)) == n),
{
    let p = (n - 1) as int / 2;
    if n % 2 == 1 {
        assert(n == 2 * p + 1);
    } else {
        assert(n == 2 * p + 2);
    }
}

/// One step of `fill` keeps the progress invariant: after inserting the
/// parent of the processed element, every pair of present siblings whose
/// parent is still missing keeps a pair member in the unprocessed window.
proof fn lemma_fill_progress_witness(
    m_pre: Map<u64, Seq<u8>>,
    m_post: Map<u64, Seq<u8>>,
    work_pre: Seq<u64>,
    work_post: Seq<u64>,
    position: int,
    n: u64,
    parent: u64,
    n2: u64,
)
    requires
        0 <= position < work_pre.len(),
        work_pre[position] == n,
        work_post == work_pre.push(parent),
        0 < n < u64::MAX,
        parent == parent_of(n),
        !m_pre.dom().contains(parent),
        forall|k: u64| #[trigger]
            m_post.dom().contains(k) <==> (m_pre.dom().contains(k) || k == parent),
        forall|n3: u64| #[trigger]
            m_pre.dom().contains(n3) && has_key(m_pre, l_child(parent_of(n3))) && has_key(
                m_pre,
                r_child(parent_of(n3)),
            ) && !m_pre.dom().contains(parent_of(n3)) ==> exists|j: int|
                position <= j < work_pre.len() && (work_pre[j] == n3 || work_pre[j] as int
                    == spec_sibling(n3 as int)),
        m_post.dom().contains(n2),
        n2 < u64::MAX,
        has_key(m_post, l_child(parent_of(n2))),
        has_key(m_post, r_child(parent_of(n2))),
        !m_post.dom().contains(parent_of(n2)),
    ensures
        exists|j: int|
            position + 1 <= j < work_post.len() && (work_post[j] == n2 || work_post[j] as int
                == spec_sibling(n2 as int)),
{
    let q = parent_of(n2);
    let plen = work_pre.len() as int;
    assert(q != parent);
    if n2 == parent {
        assert(work_post[plen] == n2);
    } else {
        assert(m_pre.dom().contains(n2));
        assert(n2 > 0) by {
            if n2 == 0 {
                assert(parent_of(0u64) == 0u64);
                assert(m_post.dom().contains(q));
            }
        }
        lemma_family(n2);
        if has_key(m_pre, l_child(q)) && has_key(m_pre, r_child(q)) {
            let j = choose|j: int|
                position <= j < work_pre.len() && (work_pre[j] == n2 || work_pre[j] as int
                    == spec_sibling(n2 as int));
            if j == position {
                if work_pre[j] == n2 {
                    assert(false);
                } else {
                    assert(n as int == spec_sibling(n2 as int));
                    assert(spec_parent(spec_sibling(n2 as int)) == q);
                    assert(false);
                }
            } else {
                assert(work_post[j] == work_pre[j]);
            }
        } else {
            // the pair was completed by the parent just inserted, so the
            // newly present child is the processed element's sibling
            assert(parent as int == spec_sibling(n2 as int)) by {
                if !has_key(m_pre, l_child(q)) {
                    assert(l_child(q) == parent as int);
                } else {
                    assert(r_child(q) == parent as int);
                }
            }
            assert(work_post[plen] as int == spec_sibling(n2 as int));
        }
    }
}

impl Backend {
    /// Determines if the current merkle tree is valid: every present
    /// non-root node must sit in a fully loaded family whose parent is the
    /// hash of its children, and the root chunk must equal `root`.
    pub fn is_valid(&self, root: Vec<u8>) -> (r: bool)
        ensures
            r == spec_is_valid(self@, root@),
    {
        let nodes = self.nodes();
        let mut i: usize = 0;
        while i < nodes.len()
            invariant
                forall|k: u64| nodes@.contains(k) <==> self@.dom().contains(k),
                forall|j: int| 0 <= j < nodes@.len() ==> #[trigger] nodes@[j] < u64::MAX,
                i <= nodes@.len(),
                forall|j: int|
                    0 <= j < i && nodes@[j] > 0 ==> family_consistent(
                        self@,
                        parent_of(#[trigger] nodes@[j]),
                    ),
            decreases nodes@.len() - i,
        {
            let n = nodes[i];
            if n > 0 {
                let (left, right, parent) = expand_tree_index(n);
                proof {
                    assert(nodes@.contains(n));
                }
                match (self.get(left), self.get(right), self.get(parent)) {
                    (Some(lc), Some(rc), Some(pc)) => {
                        let h = hash_children(lc.as_slice(), rc.as_slice());
                        if !bytes_eq(h.as_slice(), pc.as_slice()) {
                            return false;
                        }
                    },
                    _ => {
                        return false;
                    },
                }
            }
            i = i + 1;
        }
        match self.get(0) {
            Some(c) => {
                let eq = bytes_eq(c.as_slice(), root.as_slice());
                proof {
                    if eq {
                        assert forall|n: u64| #[trigger]
                            self@.dom().contains(n) && n > 0 implies family_consistent(
                            self@,
                            parent_of(n),
                        ) by {
                            assert(nodes@.contains(n));
                            let j = choose|j: int| 0 <= j < nodes@.len() && nodes@[j] == n;
                            assert(family_consistent(self@, parent_of(nodes@[j])));
                        }
                    }
                }
                eq
            },
            None => false,
        }
    }

    /// Inserts missing nodes into the merkle tree that can be generated from
    /// existing nodes.  Existing chunks are never overwritten; each created
    /// parent is the hash of its two present children, and afterwards no
    /// pair of present siblings lacks its parent.
    pub fn fill(&mut self) -> (r: Result<(), Error>)
        ensures
            r == Ok::<(), Error>(()),
            fill_rel(old(self)@, final(self)@),
    {
        let ghost m0 = self@;
        let mut work: Vec<u64> = self.nodes();
        let mut position: usize = 0;
        proof {
            assert forall|n: u64| #[trigger]
                self@.dom().contains(n) && has_key(self@, l_child(parent_of(n))) && has_key(
                    self@,
                    r_child(parent_of(n)),
                ) && !self@.dom().contains(parent_of(n)) implies exists|j: int|
                0 <= j < work@.len() && (work@[j] == n || work@[j] as int == spec_sibling(
                    n as int,
                )) by {
                assert(work@.contains(n));
                let j = choose|j: int| 0 <= j < work@.len() && work@[j] == n;
                assert(0 <= j < work@.len() && work@[j] == n);
            }
        }
        while position < work.len()
            invariant
                position <= work@.len(),
                m0.submap_of(self@),
                forall|k: u64| self@.dom().contains(k) <==> work@.contains(k),
                work@.no_duplicates(),
                forall|j: int| 0 <= j < work@.len() ==> #[trigger] work@[j] < u64::MAX,
                forall|p: u64| #[trigger]
                    self@.dom().contains(p) && !m0.dom().contains(p) ==> {
                        &&& has_key(self@, l_child(p))
                        &&& has_key(self@, r_child(p))
                        &&& self@[p] == spec_hash_children(
                            chunk_at(self@, l_child(p)),
                            chunk_at(self@, r_child(p)),
                        )
                    },
                forall|n: u64| #[trigger]
                    self@.dom().contains(n) && has_key(self@, l_child(parent_of(n))) && has_key(
                        self@,
                        r_child(parent_of(n)),
                    ) && !self@.dom().contains(parent_of(n)) ==> exists|j: int|
                        position <= j < work@.len() && (work@[j] == n || work@[j] as int
                            == spec_sibling(n as int)),
            decreases weight_sum(work@.skip(position as int)),
        {
            let ghost m_pre = self@;
            let ghost work_pre = work@;
            let n = work[position];
            proof {
                assert(work@.contains(n));
                lemma_weight_sum_unfold(work@, position as int);
            }
            let (left, right, parent) = expand_tree_index(n);
            if self.contains_node(left) && self.contains_node(right) && !self.contains_node(
                parent,
            ) {
                let lc = self.get(left).unwrap();
                let rc = self.get(right).unwrap();
                let h = hash_children(lc.as_slice(), rc.as_slice());
                self.insert(parent, h);
                work.push(parent);
                proof {
                    // the processed element cannot be the root: the root is
                    // its own parent, and the parent was found absent while
                    // every worklist element is present
                    assert(n > 0) by {
                        if n == 0 {
                            assert(parent == n);
                            assert(work_pre.contains(n));
                        }
                    }
                    lemma_weight_sum_push_skip(work_pre, parent, position as int + 1);
                    lemma_weight_sum_unfold(work_pre, position as int);
                    // the worklist still mirrors the store's domain
                    assert forall|k: u64| self@.dom().contains(k) <==> work@.contains(k) by {
                        if k == parent {
                            assert(work@[work_pre.len() as int] == parent);
                        } else {
                            if work@.contains(k) {
                                let j = choose|j: int| 0 <= j < work@.len() && work@[j] == k;
                                assert(work_pre[j] == k);
                            }
                            if work_pre.contains(k) {
                                let j = choose|j: int|
                                    0 <= j < work_pre.len() && work_pre[j] == k;
                                assert(work@[j] == k);
                            }
                        }
                    }
                    assert(work@.no_duplicates()) by {
                        assert forall|i2: int, j2: int|
                            0 <= i2 < j2 < work@.len() implies work@[i2] != work@[j2] by {
                            if j2 == work_pre.len() {
                                assert(work_pre.contains(work_pre[i2]));
                            }
                        }
                    }
                    // consistency of the freshly created parents
                    assert forall|p2: u64| #[trigger]
                        self@.dom().contains(p2) && !m0.dom().contains(p2) implies {
                        &&& has_key(self@, l_child(p2))
                        &&& has_key(self@, r_child(p2))
                        &&& self@[p2] == spec_hash_children(
                            chunk_at(self@, l_child(p2)),
                            chunk_at(self@, r_child(p2)),
                        )
                    } by {
                        if p2 == parent {
                            assert(l_child(p2) == left as int && r_child(p2) == right as int);
                            assert(left != parent && right != parent);
                        } else {
                            assert(m_pre.dom().contains(p2));
                            assert(l_child(p2) != parent as int && r_child(p2) != parent as int)
                                by {
                                if l_child(p2) == parent as int || r_child(p2) == parent as int {
                                    assert(has_key(m_pre, l_child(p2)));
                                    assert(has_key(m_pre, r_child(p2)));
                                    assert(m_pre.dom().contains(parent));
                                }
                            }
                        }
                    }
                    // progress for pairs that still miss their parent
                    assert forall|n2: u64| #[trigger]
                        self@.dom().contains(n2) && has_key(self@, l_child(parent_of(n2)))
                            && has_key(self@, r_child(parent_of(n2))) && !self@.dom().contains(
                        parent_of(n2),
                    ) implies exists|j: int|
                        position + 1 <= j < work@.len() && (work@[j] == n2 || work@[j] as int
                            == spec_sibling(n2 as int)) by {
                        assert(work@.contains(n2));
                        lemma_fill_progress_witness(
                            m_pre,
                            self@,
                            work_pre,
                            work@,
                            position as int,
                            n,
                            parent,
                            n2,
                        );
                    }
                }
            } else {
                proof {
                    // nothing changed; pairs that relied on the processed
                    // element as a witness are settled by this family check
                    assert forall|n2: u64| #[trigger]
                        self@.dom().contains(n2) && has_key(self@, l_child(parent_of(n2)))
                            && has_key(self@, r_child(parent_of(n2))) && !self@.dom().contains(
                        parent_of(n2),
                    ) implies exists|j: int|
                        position + 1 <= j < work@.len() && (work@[j] == n2 || work@[j] as int
                            == spec_sibling(n2 as int)) by {
                        let j = choose|j: int|
                            position <= j < work@.len() && (work@[j] == n2 || work@[j] as int
                                == spec_sibling(n2 as int));
                        if j == position {
                            if n2 > 0 {
                                lemma_family(n2);
                            }
                            assert(false);
                        }
                    }
                }
            }
            position = position + 1;
        }
        proof {
            // the worklist is exhausted, so every complete pair has a parent
            assert forall|p: u64|
                has_key(self@, #[trigger] l_child(p)) && has_key(
                    self@,
                    r_child(p),
                ) implies self@.dom().contains(p) by {
                let nl = l_child(p) as u64;
                assert(work@.contains(nl));
                assert(nl < u64::MAX);
                assert(parent_of(nl) == p);
                if !self@.dom().contains(p) {
                    let j = choose|j: int|
                        position <= j < work@.len() && (work@[j] == nl || work@[j] as int
                            == spec_sibling(nl as int));
                    assert(false);
                }
            }
        }
        Ok(())
    }
    /// Recalculates every node that has both children present, replacing any
    /// stale chunk with the hash of its children; nodes without two present
    /// children are left exactly as they were.
    pub fn refresh(&mut self) -> (r: Result<(), Error>)
        ensures
            r == Ok::<(), Error>(()),
            refresh_rel(old(self)@, final(self)@),
    {
        let ghost m0 = self@;
        let mut work: Vec<u64> = self.nodes();
        let mut position: usize = 0;
        proof {
            assert forall|p: u64|
                has_key(self@, #[trigger] l_child(p)) && has_key(self@, r_child(p)) implies (
            self@.dom().contains(p) && self@[p] == spec_hash_children(
                chunk_at(self@, l_child(p)),
                chunk_at(self@, r_child(p)),
            )) || (exists|j: int|
                0 <= j < work@.len() && (work@[j] as int == l_child(p) || work@[j] as int
                    == r_child(p))) by {
                let nl = l_child(p) as u64;
                assert(work@.contains(nl));
                let j = choose|j: int| 0 <= j < work@.len() && work@[j] == nl;
                assert(0 <= j < work@.len() && work@[j] as int == l_child(p));
            }
        }
        while position < work.len()
            invariant
                position <= work@.len(),
                m0.dom().subset_of(self@.dom()),
                forall|k: u64| self@.dom().contains(k) <==> work@.contains(k),
                forall|j: int| 0 <= j < work@.len() ==> #[trigger] work@[j] < u64::MAX,
                forall|p: u64|
                    has_key(self@, #[trigger] l_child(p)) && has_key(self@, r_child(p)) ==> (
                    self@.dom().contains(p) && self@[p] == spec_hash_children(
                        chunk_at(self@, l_child(p)),
                        chunk_at(self@, r_child(p)),
                    )) || (exists|j: int|
                        position <= j < work@.len() && (work@[j] as int == l_child(p)
                            || work@[j] as int == r_child(p))),
                forall|n: u64| #[trigger]
                    self@.dom().contains(n) ==> (m0.dom().contains(n) && self@[n] == m0[n]) || (
                    has_key(self@, l_child(n)) && has_key(self@, r_child(n))),
            decreases weight_sum(work@.skip(position as int)),
        {
            let ghost m_pre = self@;
            let ghost work_pre = work@;
            let n = work[position];
            proof {
                assert(work@.contains(n));
                lemma_weight_sum_unfold(work@, position as int);
            }
            let (left, right, parent) = expand_tree_index(n);
            if self.contains_node(left) && self.contains_node(right) {
                let lc = self.get(left).unwrap();
                let rc = self.get(right).unwrap();
                let h = hash_children(lc.as_slice(), rc.as_slice());
                self.insert(parent, h);
                if n > 0 {
                    work.push(parent);
                    proof {
                        lemma_weight_sum_push_skip(work_pre, parent, position as int + 1);
                    }
                }
                proof {
                    assert(left != parent && right != parent);
                    assert(l_child(parent) == left as int && r_child(parent) == right as int);
                    if n == 0 {
                        assert(parent == 0);
                        assert(m_pre.dom().contains(0u64));
                    }
                    // the worklist still mirrors the store's domain
                    assert forall|k: u64| self@.dom().contains(k) <==> work@.contains(k) by {
                        if n > 0 {
                            if k == parent {
                                assert(work@[work_pre.len() as int] == parent);
                            } else {
                                if work@.contains(k) {
                                    let j = choose|j: int| 0 <= j < work@.len() && work@[j] == k;
                                    assert(work_pre[j] == k);
                                }
                                if work_pre.contains(k) {
                                    let j = choose|j: int|
                                        0 <= j < work_pre.len() && work_pre[j] == k;
                                    assert(work@[j] == k);
                                }
                            }
                        } else {
                            assert(m_pre.dom().contains(parent));
                        }
                    }
                    // every complete pair is consistent or keeps a witness
                    assert forall|p2: u64|
                        has_key(self@, #[trigger] l_child(p2)) && has_key(
                            self@,
                            r_child(p2),
                        ) implies (self@.dom().contains(p2) && self@[p2] == spec_hash_children(
                        chunk_at(self@, l_child(p2)),
                        chunk_at(self@, r_child(p2)),
                    )) || (exists|j: int|
                        position + 1 <= j < work@.len() && (work@[j] as int == l_child(p2)
                            || work@[j] as int == r_child(p2))) by {
                        lemma_refresh_progress_witness(
                            m_pre,
                            self@,
                            work_pre,
                            work@,
                            position as int,
                            n,
                            parent,
                            p2,
                        );
                    }
                    // provenance: changed nodes always have their children present
                    assert forall|n2: u64| #[trigger]
                        self@.dom().contains(n2) implies (m0.dom().contains(n2) && self@[n2]
                        == m0[n2]) || (has_key(self@, l_child(n2)) && has_key(
                        self@,
                        r_child(n2),
                    )) by {
                        if n2 != parent {
                            assert(m_pre.dom().contains(n2));
                            assert(self@[n2] == m_pre[n2]);
                        }
                    }
                }
            } else {
                proof {
                    // no pair was completed; a pair whose only witness was
                    // the processed element is the incomplete one just
                    // examined
                    assert forall|p2: u64|
                        has_key(self@, #[trigger] l_child(p2)) && has_key(
                            self@,
                            r_child(p2),
                        ) implies (self@.dom().contains(p2) && self@[p2] == spec_hash_children(
                        chunk_at(self@, l_child(p2)),
                        chunk_at(self@, r_child(p2)),
                    )) || (exists|j: int|
                        position + 1 <= j < work@.len() && (work@[j] as int == l_child(p2)
                            || work@[j] as int == r_child(p2))) by {
                        if !(self@.dom().contains(p2) && self@[p2] == spec_hash_children(
                            chunk_at(self@, l_child(p2)),
                            chunk_at(self@, r_child(p2)),
                        )) {
                            let j = choose|j: int|
                                position <= j < work@.len() && (work@[j] as int == l_child(p2)
                                    || work@[j] as int == r_child(p2));
                            if j == position {
                                assert(n as int == l_child(p2) || n as int == r_child(p2));
                                assert(parent_of(n) == p2);
                                assert(false);
                            }
                        }
                    }
                }
            }
            position = position + 1;
        }
        Ok(())
    }
}

/// One step of `refresh` keeps the progress invariant: after overwriting the
/// parent of the processed element, every pair of present siblings is either
/// already consistent or keeps a pair member in the unprocessed window.
proof fn lemma_refresh_progress_witness(
    m_pre: Map<u64, Seq<u8>>,
    m_post: Map<u64, Seq<u8>>,
    work_pre: Seq<u64>,
    work_post: Seq<u64>,
    position: int,
    n: u64,
    parent: u64,
    p2: u64,
)
    requires
        0 <= position < work_pre.len(),
        work_pre[position] == n,
        n < u64::MAX,
        parent == parent_of(n),
        n > 0 ==> work_post == work_pre.push(parent),
        n == 0 ==> work_post == work_pre && parent == 0,
        has_key(m_pre, l_child(parent)),
        has_key(m_pre, r_child(parent)),
        m_post == m_pre.insert(
            parent,
            spec_hash_children(
                chunk_at(m_pre, l_child(parent)),
                chunk_at(m_pre, r_child(parent)),
            ),
        ),
        forall|p3: u64|
            has_key(m_pre, #[trigger] l_child(p3)) && has_key(m_pre, r_child(p3)) ==> (
            m_pre.dom().contains(p3) && m_pre[p3] == spec_hash_children(
                chunk_at(m_pre, l_child(p3)),
                chunk_at(m_pre, r_child(p3)),
            )) || (exists|j: int|
                position <= j < work_pre.len() && (work_pre[j] as int == l_child(p3)
                    || work_pre[j] as int == r_child(p3))),
        has_key(m_post, l_child(p2)),
        has_key(m_post, r_child(p2)),
    ensures
        (m_post.dom().contains(p2) && m_post[p2] == spec_hash_children(
            chunk_at(m_post, l_child(p2)),
            chunk_at(m_post, r_child(p2)),
        )) || (exists|j: int|
            position + 1 <= j < work_post.len() && (work_post[j] as int == l_child(p2)
                || work_post[j] as int == r_child(p2))),
{
    let plen = work_pre.len() as int;
    if p2 == parent {
        // freshly overwritten: children are below the parent, hence unchanged
        assert(l_child(p2) != parent as int && r_child(p2) != parent as int);
        assert(chunk_at(m_post, l_child(p2)) == chunk_at(m_pre, l_child(p2)));
        assert(chunk_at(m_post, r_child(p2)) == chunk_at(m_pre, r_child(p2)));
    } else if l_child(p2) == parent as int || r_child(p2) == parent as int {
        // the parent's chunk changed and it is a child of this pair; the
        // parent was pushed, which is the witness
        assert(n > 0) by {
            if n == 0 {
                assert(parent == 0);
                assert(l_child(p2) >= 1 && r_child(p2) >= 1);
            }
        }
        assert(work_post[plen] == parent);
    } else {
        // untouched pair: both children keep their chunks
        if has_key(m_pre, l_child(p2)) && has_key(m_pre, r_child(p2)) {
            if m_pre.dom().contains(p2) && m_pre[p2] == spec_hash_children(
                chunk_at(m_pre, l_child(p2)),
                chunk_at(m_pre, r_child(p2)),
            ) {
                assert(m_post[p2] == m_pre[p2]);
                assert(chunk_at(m_post, l_child(p2)) == chunk_at(m_pre, l_child(p2)));
                assert(chunk_at(m_post, r_child(p2)) == chunk_at(m_pre, r_child(p2)));
            } else {
                let j = choose|j: int|
                    position <= j < work_pre.len() && (work_pre[j] as int == l_child(p2)
                        || work_pre[j] as int == r_child(p2));
                if j == position {
                    // the processed element is a child of this pair, so this
                    // pair's parent is exactly the one just overwritten
                    assert(parent_of(n) == p2);
                    assert(false);
                } else {
                    assert(work_post[j] == work_pre[j]);
                }
            }
        } else {
            // one child of the pair only just appeared; it must be the
            // parent, which contradicts this case
            assert(false);
        }
    }
}

/// Hash consistency after `fill`: for every index present in the store
/// after a fill, if its sibling is present too, then the parent is present
/// and holds the hash of the sibling pair's chunks.  This holds provided
/// the nodes that were already present before the fill and whose sibling
/// pair ends up complete were complete and consistent to begin with; a
/// stale internal chunk that `fill` refuses to overwrite is excluded by
/// that hypothesis.
pub proof fn lemma_fill_hash_consistency(m0: Map<u64, Seq<u8>>, m1: Map<u64, Seq<u8>>)
    requires
        fill_rel(m0, m1),
        forall|p: u64| #[trigger]
            m0.dom().contains(p) && has_key(m1, l_child(p)) && has_key(m1, r_child(p)) ==> {
                &&& has_key(m0, l_child(p))
                &&& has_key(m0, r_child(p))
                &&& m0[p] == spec_hash_children(
                    chunk_at(m0, l_child(p)),
                    chunk_at(m0, r_child(p)),
                )
            },
    ensures
        forall|n: u64| #[trigger]
            m1.dom().contains(n) && n > 0 && has_key(m1, spec_sibling(n as int))
                ==> family_consistent(m1, parent_of(n)),
{
    assert forall|n: u64| #[trigger]
        m1.dom().contains(n) && n > 0 && has_key(
        m1,
        spec_sibling(n as int),
    ) implies family_consistent(m1, parent_of(n)) by {
        if n == u64::MAX {
            assert(n % 2 == 1);
        } else {
            lemma_family(n);
            let p = parent_of(n);
            assert(has_key(m1, l_child(p)) && has_key(m1, r_child(p)));
            assert(m1.dom().contains(p));
            if m0.dom().contains(p) {
                assert(m0[p] == m1[p]);
                assert(m0.dom().contains(l_child(p) as u64) && m0.dom().contains(
                    r_child(p) as u64,
                ));
                assert(chunk_at(m0, l_child(p)) == chunk_at(m1, l_child(p)));
                assert(chunk_at(m0, r_child(p)) == chunk_at(m1, r_child(p)));
            }
        }
    }
}

/// Hash consistency after `refresh`, with no hypothesis on the old store:
/// for every index present afterwards whose sibling is present too, the
/// parent is present and holds the hash of the sibling pair's chunks.
pub proof fn lemma_refresh_hash_consistency(m0: Map<u64, Seq<u8>>, m1: Map<u64, Seq<u8>>)
    requires
        refresh_rel(m0, m1),
    ensures
        forall|n: u64| #[trigger]
            m1.dom().contains(n) && n > 0 && has_key(m1, spec_sibling(n as int))
                ==> family_consistent(m1, parent_of(n)),
{
    assert forall|n: u64| #[trigger]
        m1.dom().contains(n) && n > 0 && has_key(
        m1,
        spec_sibling(n as int),
    ) implies family_consistent(m1, parent_of(n)) by {
        if n == u64::MAX {
            assert(n % 2 == 1);
        } else {
            lemma_family(n);
            let p = parent_of(n);
            assert(has_key(m1, l_child(p)) && has_key(m1, r_child(p)));
        }
    }
}

impl Default for Backend {
    /// The empty store.
    fn default() -> (r: Self)
        ensures
            r@ == Map::<u64, Seq<u8>>::empty(),
    {
        Backend::new()
    }
}

} // verus!
