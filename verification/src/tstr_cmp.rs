//! Equality and lexicographic ordering of text markers.
//!
//! Two well-formed markers are equal in content exactly when their texts are
//! equal, and the three-way comparison of two markers is the lexicographic
//! byte ordering of their texts. The ordering is proved to be a strict total
//! order: reflexively equal only on equal texts, antisymmetric, transitive,
//! and with exactly one of the three outcomes for every pair.

use vstd::prelude::*;

use crate::tstr_type::lemma_wf_content_determines_text;
use crate::tstr_type::TStr;
use crate::utils::bytes_cmp;
use crate::utils::bytes_eq;
use crate::utils::lex_cmp;
use crate::utils::StrOrdering;

verus! {

impl TStr {
    /// Whether two markers stand for the same text. For well-formed markers
    /// this is the same question as whether their contents are equal: the
    /// type-identity of the encoding is text equality.
    pub fn tstr_eq(&self, other: &TStr) -> (r: bool)
        requires
            self.wf(),
            other.wf(),
        ensures
            r == (self.text() == other.text()),
            r == (self@ == other@),
    {
        proof {
            lemma_wf_content_determines_text(*self, *other);
        }
        let a = self.text_of();
        let b = other.text_of();
        bytes_eq(&a, &b)
    }

    /// The three-way comparison of two markers: the lexicographic byte
    /// ordering of the texts they stand for, a strict prefix sorting before
    /// the longer text.
    pub fn tstr_cmp(&self, other: &TStr) -> (r: StrOrdering)
        requires
            self.wf(),
            other.wf(),
        ensures
            r == lex_cmp(self.text(), other.text()),
    {
        let a = self.text_of();
        let b = other.text_of();
        bytes_cmp(&a, &b)
    }
}

/// The comparison answers `Equal` exactly on equal texts.
pub proof fn lemma_lex_cmp_equal_iff(a: Seq<u8>, b: Seq<u8>)
    ensures
        (lex_cmp(a, b) == StrOrdering::Equal) <==> (a == b),
    decreases a.len(),
{
    if a.len() == 0 && b.len() == 0 {
        assert(a =~= b);
    } else if a.len() > 0 && b.len() > 0 && a[0] == b[0] {
        lemma_lex_cmp_equal_iff(a.drop_first(), b.drop_first());
        if a.drop_first() == b.drop_first() {
            assert forall|i: int| 0 <= i < a.len() implies a[i] == b[i] by {
                if i > 0 {
                    assert(a[i] == a.drop_first()[i - 1]);
                    assert(b[i] == b.drop_first()[i - 1]);
                }
            }
            assert(a =~= b);
        }
        if a == b {
            assert(a.drop_first() =~= b.drop_first());
        }
    }
}

/// Antisymmetry: swapping the sides swaps `Less` and `Greater`.
pub proof fn lemma_lex_cmp_antisymmetric(a: Seq<u8>, b: Seq<u8>)
    ensures
        (lex_cmp(a, b) == StrOrdering::Less) <==> (lex_cmp(b, a) == StrOrdering::Greater),
    decreases a.len(),
{
    if a.len() > 0 && b.len() > 0 && a[0] == b[0] {
        lemma_lex_cmp_antisymmetric(a.drop_first(), b.drop_first());
    }
}

/// Transitivity of the strict order.
pub proof fn lemma_lex_cmp_transitive(a: Seq<u8>, b: Seq<u8>, c: Seq<u8>)
    requires
        lex_cmp(a, b) == StrOrdering::Less,
        lex_cmp(b, c) == StrOrdering::Less,
    ensures
        lex_cmp(a, c) == StrOrdering::Less,
    decreases a.len(),
{
    if a.len() > 0 && b.len() > 0 && c.len() > 0 && a[0] == b[0] && b[0] == c[0] {
        lemma_lex_cmp_transitive(a.drop_first(), b.drop_first(), c.drop_first());
    }
}

/// Trichotomy: every pair of texts compares to exactly one of the three
/// outcomes, and which one is settled by the texts alone.
pub proof fn lemma_lex_cmp_trichotomy(a: Seq<u8>, b: Seq<u8>)
    ensures
        lex_cmp(a, b) == StrOrdering::Less || lex_cmp(a, b) == StrOrdering::Equal || lex_cmp(a, b)
            == StrOrdering::Greater,
        a == b ==> lex_cmp(a, b) == StrOrdering::Equal,
        a != b ==> lex_cmp(a, b) != StrOrdering::Equal,
{
    lemma_lex_cmp_equal_iff(a, b);
}

} // verus!
