//! Checked equality claims between markers.
//!
//! A claim that two markers stand for the same text either succeeds silently
//! or is reported with the two texts that failed to match, so the mismatch is
//! identified rather than merely signalled. The round-trip check confirms, on
//! any given text, that building a marker and reading it back reproduces the
//! text — it is proved to hold for every text, so it always comes back clean.

use vstd::prelude::*;

use crate::tstr_type::TStr;
use crate::utils::bytes_eq;

verus! {

/// The report of a failed equality claim: the two texts that were claimed
/// equal and are not.
#[derive(Clone, Debug)]
pub struct NotEqualError {
    /// The text of the claim's left-hand marker.
    pub left: Vec<u8>,
    /// The text of the claim's right-hand marker.
    pub right: Vec<u8>,
}

/// Claims that two markers stand for the same text. The claim succeeds
/// exactly when the texts — equivalently, the markers' contents — are equal;
/// otherwise the two mismatched texts come back in the error.
pub fn assert_equal(a: &TStr, b: &TStr) -> (r: Result<(), NotEqualError>)
    requires
        a.wf(),
        b.wf(),
    ensures
        match r {
            Ok(()) => a.text() == b.text() && a@ == b@,
            Err(e) => a.text() != b.text() && a@ != b@ && e.left@ == a.text() && e.right@
                == b.text(),
        },
{
    if a.tstr_eq(b) {
        Ok(())
    } else {
        Err(NotEqualError { left: a.text_of(), right: b.text_of() })
    }
}

/// Confirms on the given text that constructing a marker and converting it
/// back reproduces the text byte for byte. The result is proved to be true
/// for every text, so a failing check is impossible.
pub fn check_round_trip(text: &Vec<u8>) -> (r: bool)
    ensures
        r,
{
    let marker = TStr::from_bytes(text);
    let back = marker.text_of();
    bytes_eq(&back, text)
}

} // verus!
