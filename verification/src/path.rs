//! Symbolic path elements used to address values inside a merkle tree.
use vstd::prelude::*;

verus! {

use crate::NodeIndex;
use vstd::string::StrSliceExecFns;

/// An identifier for the location of a distinct value in a partial.
#[derive(Debug, PartialEq)]
pub enum PathElement {
    /// An identifier for a member of a container object or for the length of a list.
    Ident(String),
    /// An identifier for the position of a value in a homogeneous collection.
    Index(NodeIndex),
}

/// The mathematical value of a `PathElement`: an identifier is a sequence of
/// characters, an index a 64-bit number.
pub enum PathElementView {
    Ident(Seq<char>),
    Index(u64),
}

impl View for PathElement {
    type V = PathElementView;

    open spec fn view(&self) -> PathElementView {
        match self {
            PathElement::Ident(s) => PathElementView::Ident(s@),
            PathElement::Index(i) => PathElementView::Index(*i),
        }
    }
}

impl DeepView for PathElement {
    type V = PathElementView;

    open spec fn deep_view(&self) -> PathElementView {
        self.view()
    }
}

impl Clone for PathElement {
    fn clone(&self) -> (r: Self)
        ensures
            r == self,
    {
        match self {
            PathElement::Ident(s) => PathElement::Ident(s.clone()),
            PathElement::Index(i) => PathElement::Index(*i),
        }
    }
}

/// The numeric value of a digit string, most significant digit first.
pub open spec fn spec_digits_val(s: Seq<char>) -> int
    decreases s.len(),
{
    if s.len() == 0 {
        0
    } else {
        10 * spec_digits_val(s.drop_last()) + (s.last() as int - 48)
    }
}

/// Every character of `s` is an ASCII digit.
pub open spec fn spec_is_digits(s: Seq<char>) -> bool {
    forall|i: int| 0 <= i < s.len() ==> 48 <= (#[trigger] s[i]) as int <= 57
}

proof fn lemma_digits_val_nonneg(s: Seq<char>)
    requires
        spec_is_digits(s),
    ensures
        spec_digits_val(s) >= 0,
    decreases s.len(),
{
    if s.len() > 0 {
        assert(spec_is_digits(s.drop_last()));
        lemma_digits_val_nonneg(s.drop_last());
    }
}

/// In a digit string, the value of a prefix never exceeds the value of the
/// whole.
proof fn lemma_digits_prefix_le(s: Seq<char>, i: int)
    requires
        spec_is_digits(s),
        0 <= i <= s.len(),
    ensures
        spec_digits_val(s.take(i)) <= spec_digits_val(s),
    decreases s.len() - i,
{
    if i == s.len() {
        assert(s.take(i) =~= s);
    } else {
        lemma_digits_prefix_le(s, i + 1);
        assert(s.take(i + 1).drop_last() =~= s.take(i));
        assert(s.take(i + 1).last() == s[i]);
        assert(spec_is_digits(s.take(i))) by {
            assert(forall|j: int| 0 <= j < i ==> s.take(i)[j] == s[j]);
        }
        lemma_digits_val_nonneg(s.take(i));
    }
}

impl PathElement {
    /// Builds the identifier path element holding `ident`.
    pub fn from_ident_str(ident: &str) -> (r: PathElement)
        ensures
            r@ == PathElementView::Ident(ident@),
    {
        PathElement::Ident(ident.to_owned())
    }

    /// Reads a path element from a string: a non-empty run of ASCII digits
    /// whose value fits in 64 bits becomes an `Index`, anything else an
    /// `Ident`.
    pub fn from_element_str(s: &str) -> (r: PathElement)
        ensures
            r@ == if s@.len() >= 1 && spec_is_digits(s@) && spec_digits_val(s@)
                <= u64::MAX as int {
                PathElementView::Index(spec_digits_val(s@) as u64)
            } else {
                PathElementView::Ident(s@)
            },
    {
        let n = s.unicode_len();
        if n == 0 {
            return PathElement::Ident(s.to_owned());
        }
        let mut acc: u64 = 0;
        let mut i: usize = 0;
        while i < n
            invariant
                n == s@.len(),
                i <= n,
                spec_is_digits(s@.take(i as int)),
                acc == spec_digits_val(s@.take(i as int)),
            decreases n - i,
        {
            let c = s.get_char(i);
            let v = c as u32;
            if v < 48 || v > 57 {
                proof {
                    assert(!spec_is_digits(s@));
                }
                return PathElement::Ident(s.to_owned());
            }
            let d = (v - 48) as u64;
            proof {
                assert(s@.take(i as int + 1).drop_last() =~= s@.take(i as int));
                assert(s@.take(i as int + 1).last() == s@[i as int]);
                assert(spec_is_digits(s@.take(i as int + 1)));
                vstd::arithmetic::div_mod::lemma_fundamental_div_mod(
                    (u64::MAX - d) as int,
                    10,
                );
            }
            if acc > (u64::MAX - d) / 10 {
                proof {
                    // the value read so far already exceeds 64 bits, so the
                    // whole string cannot name an index
                    if spec_is_digits(s@) {
                        lemma_digits_prefix_le(s@, i as int + 1);
                    }
                }
                return PathElement::Ident(s.to_owned());
            }
            acc = acc * 10 + d;
            i = i + 1;
        }
        proof {
            assert(s@.take(n as int) =~= s@);
        }
        PathElement::Index(acc)
    }
}

} // verus!
