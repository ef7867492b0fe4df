//! The marker for a piece of text, and the conversions into and out of it.
//!
//! [`TStr`] carries a text as a sequence of digit chains, one canonical
//! decimal rendering per byte of the text. Because the rendering is canonical,
//! the marker's content is a unique encoding of the text: two markers built
//! from the same bytes are equal, two markers built from different bytes are
//! not, and the original bytes can always be recovered.

use vstd::prelude::*;

use crate::to_uint::canonical;
use crate::to_uint::chain_value;
use crate::to_uint::digit_val;
use crate::to_uint::digits_of;
use crate::to_uint::lemma_canonical_digits;
use crate::to_uint::lemma_digits_of;
use crate::to_uint::Digit;
use crate::to_uint::DigitChain;

verus! {

/// The encoding of a text: one canonical digit chain per byte, holding the
/// byte's value.
pub open spec fn encode(t: Seq<u8>) -> Seq<Seq<Digit>> {
    Seq::new(t.len(), |i: int| digits_of(t[i] as nat))
}

/// The text a sequence of digit chains stands for: each chain read back as
/// one byte.
pub open spec fn decode(u: Seq<Seq<Digit>>) -> Seq<u8> {
    Seq::new(u.len(), |i: int| chain_value(u[i]) as u8)
}

/// Decoding inverts encoding: the round trip gives the text back, byte for
/// byte, for every text.
pub proof fn lemma_round_trip(t: Seq<u8>)
    ensures
        decode(encode(t)) == t,
{
    assert forall|i: int| 0 <= i < t.len() implies decode(encode(t))[i] == t[i] by {
        lemma_digits_of(t[i] as nat);
    }
    assert(decode(encode(t)) =~= t);
}

/// Identity is equality: two texts have the same encoding exactly when they
/// are the same text.
pub proof fn lemma_identity_iff_equality(t1: Seq<u8>, t2: Seq<u8>)
    ensures
        (encode(t1) == encode(t2)) <==> (t1 == t2),
{
    if encode(t1) == encode(t2) {
        lemma_round_trip(t1);
        lemma_round_trip(t2);
    }
}

/// The decimal rendering of a number as text: one ASCII digit per decimal
/// place, no leading zero, zero itself rendered as one digit.
pub open spec fn decimal_bytes(n: nat) -> Seq<u8> {
    digits_of(n).map_values(|d: Digit| (48 + digit_val(d)) as u8)
}

/// A marker standing for one piece of text. Its content is the canonical
/// encoding of the text and nothing else, so markers compare exactly as the
/// texts they were built from.
#[derive(Clone, Debug)]
pub struct TStr {
    units: Vec<DigitChain>,
}

impl View for TStr {
    type V = Seq<Seq<Digit>>;

    closed spec fn view(&self) -> Seq<Seq<Digit>> {
        self.units@.map_values(|c: DigitChain| c@)
    }
}

impl TStr {
    /// A well-formed marker: every unit is a canonical chain encoding one
    /// byte.
    pub open spec fn wf(self) -> bool {
        forall|i: int|
            0 <= i < self@.len() ==> canonical(#[trigger] self@[i]) && chain_value(self@[i]) <= 255
    }

    /// The text this marker stands for.
    pub open spec fn text(self) -> Seq<u8> {
        decode(self@)
    }

    /// Builds the marker for a text. The marker is a pure function of the
    /// bytes: building from the same bytes anywhere always gives this same
    /// value.
    pub fn from_bytes(text: &Vec<u8>) -> (r: TStr)
        ensures
            r@ == encode(text@),
            r.wf(),
            r.text() == text@,
    {
        let mut units: Vec<DigitChain> = Vec::new();
        let mut i: usize = 0;
        while i < text.len()
            invariant
                i <= text@.len(),
                units@.len() == i,
                forall|j: int| 0 <= j < i ==> (#[trigger] units@[j])@ == digits_of(text@[j] as nat),
            decreases text@.len() - i,
        {
            units.push(DigitChain::from_u128(text[i] as u128));
            i = i + 1;
        }
        let r = TStr { units };
        proof {
            assert(r@ =~= encode(text@));
            assert forall|j: int| 0 <= j < r@.len() implies canonical(#[trigger] r@[j])
                && chain_value(r@[j]) <= 255 by {
                lemma_digits_of(text@[j] as nat);
            }
            lemma_round_trip(text@);
        }
        r
    }

    /// Builds the marker for a number: the same marker that the number's
    /// decimal rendering as text gives, so a numeric literal and its textual
    /// spelling name one and the same marker.
    pub fn from_uint(n: u128) -> (r: TStr)
        ensures
            r@ == encode(decimal_bytes(n as nat)),
            r.wf(),
            r.text() == decimal_bytes(n as nat),
    {
        let chain = DigitChain::from_u128(n);
        let mut bytes: Vec<u8> = Vec::new();
        let mut i: usize = 0;
        while i < chain.digit_count()
            invariant
                chain@ == digits_of(n as nat),
                i <= chain@.len(),
                bytes@.len() == i,
                forall|j: int| 0 <= j < i ==> bytes@[j] == (48 + digit_val(chain@[j])) as u8,
            decreases chain@.len() - i,
        {
            let d = chain.digit_at(i);
            bytes.push(48 + d.value());
            i = i + 1;
        }
        proof {
            assert(bytes@ =~= decimal_bytes(n as nat));
        }
        TStr::from_bytes(&bytes)
    }

    /// The marker's text, recovered byte for byte.
    pub fn text_of(&self) -> (r: Vec<u8>)
        requires
            self.wf(),
        ensures
            r@ == self.text(),
    {
        let mut bytes: Vec<u8> = Vec::new();
        let mut i: usize = 0;
        while i < self.units.len()
            invariant
                self.wf(),
                i <= self@.len(),
                self.units@.len() == self@.len(),
                forall|j: int| 0 <= j < self@.len() ==> (#[trigger] self.units@[j])@ == self@[j],
                bytes@ =~= self.text().subrange(0, i as int),
            decreases self@.len() - i,
        {
            let v = self.units[i].as_usize();
            bytes.push(v as u8);
            proof {
                assert(bytes@ =~= self.text().subrange(0, i + 1));
            }
            i = i + 1;
        }
        proof {
            assert(self.text().subrange(0, self@.len() as int) =~= self.text());
        }
        bytes
    }

    /// The number of bytes of the text this marker stands for.
    pub fn len(&self) -> (r: usize)
        ensures
            r == self.text().len(),
    {
        self.units.len()
    }
}

/// For well-formed markers, equal content and equal text are the same thing:
/// the canonical encoding identifies the text and nothing else.
pub proof fn lemma_wf_content_determines_text(a: TStr, b: TStr)
    requires
        a.wf(),
        b.wf(),
    ensures
        (a@ == b@) <==> (a.text() == b.text()),
{
    lemma_wf_encodes_own_text(a);
    lemma_wf_encodes_own_text(b);
    lemma_identity_iff_equality(a.text(), b.text());
}

/// A well-formed marker is exactly the encoding of its own text.
pub proof fn lemma_wf_encodes_own_text(a: TStr)
    requires
        a.wf(),
    ensures
        a@ == encode(a.text()),
{
    assert forall|i: int| 0 <= i < a@.len() implies encode(a.text())[i] == a@[i] by {
        lemma_canonical_digits(a@[i]);
        assert(a.text()[i] == chain_value(a@[i]) as u8);
        assert((chain_value(a@[i]) as u8) as nat == chain_value(a@[i]));
    }
    assert(a@ =~= encode(a.text()));
}

} // verus!
