//! The wire format of a partial proof: a list of tree indices and a flat
//! buffer holding one 32-byte chunk per index.
use vstd::prelude::*;

verus! {

use crate::NodeIndex;
use crate::backend::bytes_eq;

/// A serialized proof: the `i`-th index owns bytes `[32 * i, 32 * i + 32)`
/// of `chunks`.  The order of the indices is the producer's choice, so two
/// proofs count as equal when they carry the same collection of pairs.
#[derive(Clone, Debug)]
pub struct SerializedProof {
    pub indices: Vec<NodeIndex>,
    pub chunks: Vec<u8>,
}

/// The chunk buffer holds exactly one 32-byte chunk per index.
pub open spec fn spec_sp_wf(indices: Seq<u64>, chunks: Seq<u8>) -> bool {
    chunks.len() == 32 * indices.len()
}

/// The (index, chunk) pairs a serialized proof carries.
pub open spec fn spec_pairs(indices: Seq<u64>, chunks: Seq<u8>) -> Seq<(u64, Seq<u8>)> {
    Seq::new(indices.len(), |i: int| (indices[i], chunks.subrange(32 * i, 32 * i + 32)))
}

/// How many times `x` occurs in `s`.
pub open spec fn pair_count(s: Seq<(u64, Seq<u8>)>, x: (u64, Seq<u8>)) -> nat
    decreases s.len(),
{
    if s.len() == 0 {
        0
    } else {
        pair_count(s.drop_first(), x) + if s[0] == x {
            1nat
        } else {
            0nat
        }
    }
}

/// Two serialized proofs are equivalent when they carry the same multiset
/// of (index, chunk) pairs; proofs that do not pair up cleanly are compared
/// verbatim.
pub open spec fn spec_sp_equiv(ai: Seq<u64>, ac: Seq<u8>, bi: Seq<u64>, bc: Seq<u8>) -> bool {
    if spec_sp_wf(ai, ac) && spec_sp_wf(bi, bc) {
        let pa = spec_pairs(ai, ac);
        let pb = spec_pairs(bi, bc);
        &&& ai.len() == bi.len()
        &&& forall|i: int|
            0 <= i < pa.len() ==> pair_count(pa, #[trigger] pa[i]) == pair_count(pb, pa[i])
        &&& forall|i: int|
            0 <= i < pb.len() ==> pair_count(pa, #[trigger] pb[i]) == pair_count(pb, pb[i])
    } else {
        ai == bi && ac == bc
    }
}

proof fn lemma_pair_count_push(s: Seq<(u64, Seq<u8>)>, y: (u64, Seq<u8>), x: (u64, Seq<u8>))
    ensures
        pair_count(s.push(y), x) == pair_count(s, x) + if y == x {
            1nat
        } else {
            0nat
        },
    decreases s.len(),
{
    reveal_with_fuel(pair_count, 3);
    assert(s.push(y).len() == s.len() + 1);
    if s.len() == 0 {
        assert(s.push(y)[0] == y);
        assert(s.push(y).drop_first() =~= Seq::<(u64, Seq<u8>)>::empty());
    } else {
        assert(s.push(y)[0] == s[0]);
        assert(s.push(y).drop_first() =~= s.drop_first().push(y));
        lemma_pair_count_push(s.drop_first(), y, x);
    }
}

/// Compares two index lists for equality.
fn indices_eq(a: &[u64], b: &[u64]) -> (r: bool)
    ensures
        r == (a@ == b@),
{
    if a.len() != b.len() {
        return false;
    }
    let mut i: usize = 0;
    while i < a.len()
        invariant
            a@.len() == b@.len(),
            i <= a@.len(),
            forall|j: int| 0 <= j < i ==> a@[j] == b@[j],
        decreases a@.len() - i,
    {
        if a[i] != b[i] {
            return false;
        }
        i = i + 1;
    }
    proof {
        assert(a@ =~= b@);
    }
    true
}

/// Compares the `i`-th pair of `a` with the `j`-th pair of `b`.
fn pair_eq(a: &SerializedProof, i: usize, b: &SerializedProof, j: usize) -> (r: bool)
    requires
        i < a.indices@.len(),
        j < b.indices@.len(),
        spec_sp_wf(a.indices@, a.chunks@),
        spec_sp_wf(b.indices@, b.chunks@),
    ensures
        r == (spec_pairs(a.indices@, a.chunks@)[i as int] == spec_pairs(
            b.indices@,
            b.chunks@,
        )[j as int]),
{
    if a.indices[i] != b.indices[j] {
        return false;
    }
    let a_chunks_len = a.chunks.len();
    let b_chunks_len = b.chunks.len();
    let mut k: usize = 0;
    while k < 32
        invariant
            k <= 32,
            i < a.indices@.len(),
            j < b.indices@.len(),
            a.chunks@.len() == a_chunks_len,
            b.chunks@.len() == b_chunks_len,
            spec_sp_wf(a.indices@, a.chunks@),
            spec_sp_wf(b.indices@, b.chunks@),
            a.chunks@.subrange(32 * i as int, 32 * i as int + k as int) == b.chunks@.subrange(
                32 * j as int,
                32 * j as int + k as int,
            ),
        decreases 32 - k,
    {
        if a.chunks[32 * i + k] != b.chunks[32 * j + k] {
            proof {
                let sa = a.chunks@.subrange(32 * i as int, 32 * i as int + 32);
                let sb = b.chunks@.subrange(32 * j as int, 32 * j as int + 32);
                assert(sa[k as int] != sb[k as int]);
            }
            return false;
        }
        proof {
            let t = k as int;
            assert(a.chunks@.subrange(32 * i as int, 32 * i as int + t + 1) =~= a.chunks@
                .subrange(32 * i as int, 32 * i as int + t).push(a.chunks@[32 * i as int + t]));
            assert(b.chunks@.subrange(32 * j as int, 32 * j as int + t + 1) =~= b.chunks@
                .subrange(32 * j as int, 32 * j as int + t).push(b.chunks@[32 * j as int + t]));
        }
        k = k + 1;
    }
    true
}

/// Counts how often the `j`-th pair of `b` occurs among the pairs of `x`.
fn count_pair(x: &SerializedProof, b: &SerializedProof, j: usize) -> (c: usize)
    requires
        j < b.indices@.len(),
        spec_sp_wf(x.indices@, x.chunks@),
        spec_sp_wf(b.indices@, b.chunks@),
    ensures
        c == pair_count(
            spec_pairs(x.indices@, x.chunks@),
            spec_pairs(b.indices@, b.chunks@)[j as int],
        ),
{
    let ghost px = spec_pairs(x.indices@, x.chunks@);
    let ghost needle = spec_pairs(b.indices@, b.chunks@)[j as int];
    let mut c: usize = 0;
    let mut i: usize = 0;
    proof {
        assert(px.take(0) =~= Seq::<(u64, Seq<u8>)>::empty());
    }
    while i < x.indices.len()
        invariant
            i <= x.indices@.len(),
            c <= i,
            j < b.indices@.len(),
            spec_sp_wf(x.indices@, x.chunks@),
            spec_sp_wf(b.indices@, b.chunks@),
            px == spec_pairs(x.indices@, x.chunks@),
            needle == spec_pairs(b.indices@, b.chunks@)[j as int],
            c == pair_count(px.take(i as int), needle),
        decreases x.indices@.len() - i,
    {
        let hit = pair_eq(x, i, b, j);
        proof {
            assert(px.take(i + 1) =~= px.take(i as int).push(px[i as int]));
            lemma_pair_count_push(px.take(i as int), px[i as int], needle);
        }
        if hit {
            c = c + 1;
        }
        i = i + 1;
    }
    proof {
        assert(px.take(x.indices@.len() as int) =~= px);
    }
    c
}

impl PartialEq for SerializedProof {
    /// Two proofs are equal when they carry the same multiset of
    /// (index, chunk) pairs, whatever the order.
    fn eq(&self, other: &Self) -> (r: bool) {
        let a_wf = self.chunks.len() % 32 == 0 && self.chunks.len() / 32 == self.indices.len();
        let b_wf = other.chunks.len() % 32 == 0 && other.chunks.len() / 32
            == other.indices.len();
        proof {
            vstd::arithmetic::div_mod::lemma_fundamental_div_mod(self.chunks@.len() as int, 32);
            vstd::arithmetic::div_mod::lemma_fundamental_div_mod(
                other.chunks@.len() as int,
                32,
            );
        }
        if !a_wf || !b_wf {
            return indices_eq(self.indices.as_slice(), other.indices.as_slice()) && bytes_eq(
                self.chunks.as_slice(),
                other.chunks.as_slice(),
            );
        }
        if self.indices.len() != other.indices.len() {
            return false;
        }
        let ghost pa = spec_pairs(self.indices@, self.chunks@);
        let ghost pb = spec_pairs(other.indices@, other.chunks@);
        let mut i: usize = 0;
        while i < self.indices.len()
            invariant
                i <= self.indices@.len(),
                self.indices@.len() == other.indices@.len(),
                spec_sp_wf(self.indices@, self.chunks@),
                spec_sp_wf(other.indices@, other.chunks@),
                pa == spec_pairs(self.indices@, self.chunks@),
                pb == spec_pairs(other.indices@, other.chunks@),
                forall|t: int| 0 <= t < i ==> pair_count(pa, #[trigger] pa[t]) == pair_count(pb, pa[t]),
            decreases self.indices@.len() - i,
        {
            let ca = count_pair(self, self, i);
            let cb = count_pair(other, self, i);
            if ca != cb {
                return false;
            }
            i = i + 1;
        }
        let mut jj: usize = 0;
        while jj < other.indices.len()
            invariant
                jj <= other.indices@.len(),
                self.indices@.len() == other.indices@.len(),
                spec_sp_wf(self.indices@, self.chunks@),
                spec_sp_wf(other.indices@, other.chunks@),
                pa == spec_pairs(self.indices@, self.chunks@),
                pb == spec_pairs(other.indices@, other.chunks@),
                forall|t: int| 0 <= t < pa.len() ==> pair_count(pa, #[trigger] pa[t]) == pair_count(pb, pa[t]),
                forall|t: int| 0 <= t < jj ==> pair_count(pa, #[trigger] pb[t]) == pair_count(pb, pb[t]),
            decreases other.indices@.len() - jj,
        {
            let ca = count_pair(self, other, jj);
            let cb = count_pair(other, other, jj);
            if ca != cb {
                return false;
            }
            jj = jj + 1;
        }
        true
    }
}

impl vstd::std_specs::cmp::PartialEqSpecImpl for SerializedProof {
    open spec fn obeys_eq_spec() -> bool {
        true
    }

    open spec fn eq_spec(&self, other: &SerializedProof) -> bool {
        spec_sp_equiv(self.indices@, self.chunks@, other.indices@, other.chunks@)
    }
}

} // verus!
