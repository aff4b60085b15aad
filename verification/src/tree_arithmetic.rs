//! Pure arithmetic over the 0-indexed binary-tree address space.
//!
//! Index 0 is the root; for a node `i > 0` the parent is `(i - 1) / 2` and the
//! children of a node `p` are `2p + 1` and `2p + 2`.  A subtree rooted at
//! global index `r` of height `h` has its left-most leaf at global index
//! `((r + 1) << h) - 1`.
use crate::NodeIndex;
use vstd::prelude::*;

verus! {

use vstd::arithmetic::power2::{
    pow2,
    lemma_pow2_adds,
    lemma_pow2_pos,
    lemma_pow2_strictly_increases,
    lemma2_to64,
    lemma2_to64_rest,
};
use vstd::bits::{lemma_u64_shl_is_mul, lemma_u64_pow2_no_overflow};

/// The parent of tree index `i`; the root is its own parent.
pub open spec fn spec_parent(i: int) -> int {
    if i <= 0 {
        0
    } else {
        (i - 1) / 2
    }
}

/// The left child of tree index `p`.
pub open spec fn spec_left(p: int) -> int {
    2 * p + 1
}

/// The right child of tree index `p`.
pub open spec fn spec_right(p: int) -> int {
    2 * p + 2
}

/// The other child of `i`'s parent, for `i > 0`.
pub open spec fn spec_sibling(i: int) -> int {
    if i % 2 == 1 {
        i + 1
    } else {
        i - 1
    }
}

/// The depth of tree index `i`: the number of steps from `i` up to the root.
pub open spec fn depth_of(i: int) -> nat
    decreases i,
{
    if i <= 0 {
        0
    } else {
        1 + depth_of((i - 1) / 2)
    }
}

/// The global index of the node with subtree-local index `local` inside a
/// subtree whose root sits at global index `root`: the bit path of `root`
/// is prefixed to the bit path of `local`.
pub open spec fn spec_subtree_index(root: int, local: int) -> int
    decreases local,
{
    if local <= 0 {
        root
    } else {
        2 * spec_subtree_index(root, (local - 1) / 2) + 1 + (local - 1) % 2
    }
}

/// The ceiling of the base-2 logarithm: the least `k` with `n <= pow2(k)`.
pub open spec fn clog2(n: int) -> nat
    decreases n,
{
    if n <= 1 {
        0
    } else {
        1 + clog2((n + 1) / 2)
    }
}

/// The floor of the base-2 logarithm of `n`, for `n >= 1`.
pub open spec fn flog2(n: int) -> nat
    decreases n,
{
    if n <= 1 {
        0
    } else {
        1 + flog2(n / 2)
    }
}

/// Both children of a node sit one step deeper than the node.
pub proof fn lemma_depth_children(p: int)
    requires
        p >= 0,
    ensures
        depth_of(spec_left(p)) == depth_of(p) + 1,
        depth_of(spec_right(p)) == depth_of(p) + 1,
{
    assert((2 * p + 1 - 1) / 2 == p);
    assert((2 * p + 2 - 1) / 2 == p);
}

/// The nodes of depth `d` are exactly the indices in `[pow2(d) - 1, 2 * pow2(d) - 1)`.
pub proof fn lemma_depth_row(i: int, d: nat)
    requires
        pow2(d) - 1 <= i < 2 * pow2(d) - 1,
    ensures
        depth_of(i) == d,
    decreases d,
{
    lemma_pow2_pos(d);
    if d == 0 {
        assert(pow2(0) == 1) by { lemma2_to64() };
    } else {
        assert(pow2(d) == 2 * pow2((d - 1) as nat)) by {
            lemma_pow2_adds((d - 1) as nat, 1);
            lemma2_to64();
        };
        assert(i >= 1);
        lemma_depth_row((i - 1) / 2, (d - 1) as nat);
    }
}

/// Conversely, an index of depth `d` lies in the depth-`d` row.
pub proof fn lemma_row_of_depth(i: int)
    requires
        i >= 0,
    ensures
        pow2(depth_of(i)) - 1 <= i < 2 * pow2(depth_of(i)) - 1,
    decreases i,
{
    if i == 0 {
        assert(pow2(0) == 1) by { lemma2_to64() };
    } else {
        let p = (i - 1) / 2;
        lemma_row_of_depth(p);
        assert(pow2(depth_of(i)) == 2 * pow2(depth_of(p))) by {
            lemma_pow2_adds(depth_of(p), 1);
            lemma2_to64();
        };
    }
}

/// Closed form of `spec_subtree_index`: with `local` at position `k` of its
/// row, the translated index is at position `k` of the row of the same
/// relative depth below `root`.
pub proof fn lemma_subtree_index_closed_form(root: int, local: int)
    requires
        root >= 0,
        local >= 0,
    ensures
        spec_subtree_index(root, local) + 1 == (root + 1) * pow2(depth_of(local)) + (local + 1
            - pow2(depth_of(local))),
    decreases local,
{
    lemma_row_of_depth(local);
    if local == 0 {
        assert(pow2(0) == 1) by { lemma2_to64() };
    } else {
        let p = (local - 1) / 2;
        lemma_subtree_index_closed_form(root, p);
        assert(pow2(depth_of(local)) == 2 * pow2(depth_of(p))) by {
            lemma_pow2_adds(depth_of(p), 1);
            lemma2_to64();
        };
        assert(local == 2 * p + 1 + (local - 1) % 2);
        let pp = pow2(depth_of(p)) as int;
        assert(2 * ((root + 1) * pp) == (root + 1) * (2 * pp)) by (nonlinear_arith);
    }
}

/// Translating a local index into a subtree adds the depths.
pub proof fn lemma_subtree_index_depth(root: int, local: int)
    requires
        root >= 0,
        local >= 0,
    ensures
        depth_of(spec_subtree_index(root, local)) == depth_of(root) + depth_of(local),
        spec_subtree_index(root, local) >= root,
    decreases local,
{
    if local == 0 {
    } else {
        let p = (local - 1) / 2;
        lemma_subtree_index_depth(root, p);
        let g = spec_subtree_index(root, p);
        lemma_depth_children(g);
    }
}

/// An index of depth at most `d` is at most `2 * pow2(d) - 2`.
pub proof fn lemma_index_bound_of_depth(i: int, d: nat)
    requires
        i >= 0,
        depth_of(i) <= d,
    ensures
        i <= 2 * pow2(d) - 2,
{
    lemma_row_of_depth(i);
    if depth_of(i) < d {
        lemma_pow2_strictly_increases(depth_of(i), d);
    }
}

/// `clog2(n)` is the least exponent whose power of two reaches `n`.
pub proof fn lemma_clog2_bracket(n: int)
    requires
        n >= 1,
    ensures
        n <= pow2(clog2(n)),
        n >= 2 ==> pow2((clog2(n) - 1) as nat) < n,
        n == 1 ==> clog2(n) == 0,
    decreases n,
{
    if n <= 1 {
        assert(pow2(0) == 1) by { lemma2_to64() };
    } else {
        let m = (n + 1) / 2;
        lemma_clog2_bracket(m);
        assert(pow2(clog2(n)) == 2 * pow2(clog2(m))) by {
            lemma_pow2_adds(clog2(m), 1);
            lemma2_to64();
        };
        if m >= 2 {
            assert(pow2((clog2(n) - 1) as nat) == 2 * pow2((clog2(m) - 1) as nat)) by {
                lemma_pow2_adds((clog2(m) - 1) as nat, 1);
                lemma2_to64();
            };
        } else {
            assert(clog2(n) == 1);
            assert(pow2(0) == 1) by { lemma2_to64() };
        }
    }
}

/// If `n` fits under `pow2(k)` then `clog2(n)` is at most `k`.
pub proof fn lemma_clog2_le(n: int, k: nat)
    requires
        1 <= n <= pow2(k),
    ensures
        clog2(n) <= k,
{
    lemma_clog2_bracket(n);
    if clog2(n) > k {
        if k < clog2(n) - 1 {
            lemma_pow2_strictly_increases(k, (clog2(n) - 1) as nat);
        }
        assert(false);
    }
}

/// A power of two at or above `n` with its predecessor power below `n` is
/// exactly `pow2(clog2(n))`.
pub proof fn lemma_clog2_unique(n: int, k: nat)
    requires
        n >= 1,
        n <= pow2(k),
        k == 0 || pow2((k - 1) as nat) < n,
    ensures
        k == clog2(n),
{
    lemma_clog2_bracket(n);
    lemma_clog2_le(n, k);
    if clog2(n) < k {
        if clog2(n) < k - 1 {
            lemma_pow2_strictly_increases(clog2(n), (k - 1) as nat);
        }
        assert(false);
    }
}

/// The floor logarithm brackets its argument between two powers of two.
pub proof fn lemma_flog2_bracket(n: int)
    requires
        n >= 1,
    ensures
        pow2(flog2(n)) <= n < 2 * pow2(flog2(n)),
    decreases n,
{
    if n <= 1 {
        assert(pow2(0) == 1) by { lemma2_to64() };
    } else {
        lemma_flog2_bracket(n / 2);
        assert(pow2(flog2(n)) == 2 * pow2(flog2(n / 2))) by {
            lemma_pow2_adds(flog2(n / 2), 1);
            lemma2_to64();
        };
    }
}

/// The floor logarithm of an exact power of two recovers the exponent.
pub proof fn lemma_flog2_pow2(k: nat)
    ensures
        flog2(pow2(k) as int) == k,
    decreases k,
{
    lemma_pow2_pos(k);
    if k == 0 {
        assert(pow2(0) == 1) by { lemma2_to64() };
    } else {
        lemma_flog2_pow2((k - 1) as nat);
        assert(pow2(k) == 2 * pow2((k - 1) as nat)) by {
            lemma_pow2_adds((k - 1) as nat, 1);
            lemma2_to64();
        };
        assert(pow2(k) as int / 2 == pow2((k - 1) as nat));
    }
}

/// Returns the sibling pair that contains `index` together with its parent,
/// as `(left, right, parent)`; for the root the pair is the root's children.
pub fn expand_tree_index(index: NodeIndex) -> (r: (NodeIndex, NodeIndex, NodeIndex))
    requires
        index < u64::MAX,
    ensures
        r.2 == spec_parent(index as int),
        r.0 == spec_left(r.2 as int),
        r.1 == spec_right(r.2 as int),
{
    let parent: u64 = if index == 0 {
        0
    } else {
        (index - 1) / 2
    };
    (2 * parent + 1, 2 * parent + 2, parent)
}

/// Returns the other child of `index`'s parent, for `index > 0`.
pub fn sibling_index(index: NodeIndex) -> (r: NodeIndex)
    requires
        0 < index < u64::MAX,
    ensures
        r == spec_sibling(index as int),
{
    if index % 2 == 1 {
        index + 1
    } else {
        index - 1
    }
}

/// Returns the left-most leaf of a subtree of height `height` rooted at
/// global index `root`: `((root + 1) << height) - 1`.
pub fn left_most_leaf(root: NodeIndex, height: u64) -> (r: NodeIndex)
    requires
        height < 64,
        (root + 1) * pow2(height as nat) <= u64::MAX,
    ensures
        r as int == (root + 1) * pow2(height as nat) - 1,
{
    proof {
        lemma_pow2_pos(height as nat);
        assert((root + 1) * 1 <= (root + 1) * pow2(height as nat)) by (nonlinear_arith)
            requires
                root >= 0,
                pow2(height as nat) >= 1,
        ;
    }
    let base: u64 = root + 1;
    proof {
        lemma_u64_shl_is_mul(base, height);
    }
    (base << height) - 1
}

/// Translates a subtree-local index to the global index space, for a subtree
/// rooted at global index `root`.
pub fn subtree_index_to_general(root: NodeIndex, local: NodeIndex) -> (r: NodeIndex)
    requires
        spec_subtree_index(root as int, local as int) <= u64::MAX,
    ensures
        r == spec_subtree_index(root as int, local as int),
    decreases local,
{
    if local == 0 {
        root
    } else {
        proof {
            lemma_subtree_index_depth(root as int, ((local - 1) / 2) as int);
        }
        let up = subtree_index_to_general(root, (local - 1) / 2);
        2 * up + 1 + (local - 1) % 2
    }
}

/// Returns the least power of two at or above `n` (and `1` for `n == 0`).
pub fn next_power_of_two(n: u64) -> (r: u64)
    requires
        n <= pow2(63),
    ensures
        r == pow2(clog2(n as int)),
        n <= r,
{
    let mut p: u64 = 1;
    let ghost mut k: nat = 0;
    proof {
        lemma2_to64();
    }
    while p < n
        invariant
            n <= pow2(63),
            p == pow2(k),
            k == 0 || pow2((k - 1) as nat) < n,
        decreases 2 * (n as int) - p,
    {
        proof {
            if k >= 63 {
                if k > 63 {
                    lemma_pow2_strictly_increases(63, k);
                }
                assert(false);
            }
            lemma_u64_pow2_no_overflow((k + 1) as nat);
            lemma_pow2_adds(k, 1);
            lemma2_to64();
            k = k + 1;
        }
        p = p * 2;
    }
    proof {
        if n >= 1 {
            lemma_clog2_unique(n as int, k);
        } else {
            assert(pow2(0) == 1) by { lemma2_to64() };
        }
    }
    p
}

/// Returns the floor of the base-2 logarithm of `n`, for `n >= 1`; on an
/// exact power of two this recovers the exponent.
pub fn log_base_two(n: u64) -> (r: u64)
    requires
        n >= 1,
    ensures
        r == flog2(n as int),
        pow2(r as nat) <= n < 2 * pow2(r as nat),
{
    proof {
        lemma_flog2_bracket(n as int);
        if flog2(n as int) >= 64 {
            lemma2_to64_rest();
            if flog2(n as int) > 64 {
                lemma_pow2_strictly_increases(64, flog2(n as int));
            }
            assert(false);
        }
    }
    let mut m: u64 = n;
    let mut r: u64 = 0;
    while m >= 2
        invariant
            m >= 1,
            r + flog2(m as int) == flog2(n as int),
            flog2(n as int) <= 63,
        decreases m,
    {
        proof {
            lemma_flog2_bracket(m as int);
        }
        m = m / 2;
        r = r + 1;
    }
    proof {
        lemma_flog2_bracket(n as int);
    }
    r
}

} // verus!
