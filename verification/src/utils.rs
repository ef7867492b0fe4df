//! Plain byte-sequence comparisons: equality and lexicographic three-way
//! ordering, with the ordering itself defined as a specification that the
//! marker-level comparisons of [`crate::tstr_cmp`] are proved against.

use vstd::prelude::*;

verus! {

/// A three-way comparison result.
#[derive(Clone, Copy, PartialEq, Eq, Structural, Debug)]
pub enum StrOrdering {
    Less,
    Equal,
    Greater,
}

/// Lexicographic byte ordering, with the prefix rule: at the first position
/// where the texts differ the smaller byte decides, and a strict prefix of a
/// text sorts before it.
pub open spec fn lex_cmp(a: Seq<u8>, b: Seq<u8>) -> StrOrdering
    decreases a.len(),
{
    if a.len() == 0 && b.len() == 0 {
        StrOrdering::Equal
    } else if a.len() == 0 {
        StrOrdering::Less
    } else if b.len() == 0 {
        StrOrdering::Greater
    } else if a[0] < b[0] {
        StrOrdering::Less
    } else if a[0] > b[0] {
        StrOrdering::Greater
    } else {
        lex_cmp(a.drop_first(), b.drop_first())
    }
}

/// Whether two byte sequences are equal, byte for byte.
pub fn bytes_eq(a: &Vec<u8>, b: &Vec<u8>) -> (r: bool)
    ensures
        r == (a@ == b@),
{
    if a.len() != b.len() {
        return false;
    }
    let mut i: usize = 0;
    while i < a.len()
        invariant
            a@.len() == b@.len(),
            i <= a@.len(),
            forall|j: int| 0 <= j < i ==> a@[j] == b@[j],
        decreases a@.len() - i,
    {
        if a[i] != b[i] {
            return false;
        }
        i = i + 1;
    }
    proof {
        assert(a@ =~= b@);
    }
    true
}

/// The lexicographic three-way comparison of two byte sequences.
pub fn bytes_cmp(a: &Vec<u8>, b: &Vec<u8>) -> (r: StrOrdering)
    ensures
        r == lex_cmp(a@, b@),
{
    let mut i: usize = 0;
    proof {
        assert(a@.subrange(0, a@.len() as int) =~= a@);
        assert(b@.subrange(0, b@.len() as int) =~= b@);
    }
    while i < a.len() && i < b.len()
        invariant
            i <= a@.len(),
            i <= b@.len(),
            lex_cmp(a@, b@) == lex_cmp(
                a@.subrange(i as int, a@.len() as int),
                b@.subrange(i as int, b@.len() as int),
            ),
        decreases a@.len() - i,
    {
        let ghost ra = a@.subrange(i as int, a@.len() as int);
        let ghost rb = b@.subrange(i as int, b@.len() as int);
        if a[i] < b[i] {
            return StrOrdering::Less;
        }
        if a[i] > b[i] {
            return StrOrdering::Greater;
        }
        proof {
            assert(ra.drop_first() =~= a@.subrange(i + 1, a@.len() as int));
            assert(rb.drop_first() =~= b@.subrange(i + 1, b@.len() as int));
        }
        i = i + 1;
    }
    if a.len() == b.len() {
        proof {
            assert(a@.subrange(i as int, a@.len() as int) =~= Seq::<u8>::empty());
            assert(b@.subrange(i as int, b@.len() as int) =~= Seq::<u8>::empty());
        }
        StrOrdering::Equal
    } else if i == a.len() {
        proof {
            assert(a@.subrange(i as int, a@.len() as int) =~= Seq::<u8>::empty());
        }
        StrOrdering::Less
    } else {
        proof {
            assert(b@.subrange(i as int, b@.len() as int) =~= Seq::<u8>::empty());
        }
        StrOrdering::Greater
    }
}

} // verus!
