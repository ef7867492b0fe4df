//! Type-level strings, modelled as verified values.
//!
//! A piece of literal text is turned into a marker — a canonical numeric
//! encoding of its bytes — such that two markers are equal exactly when the
//! texts they were built from are equal byte for byte. The marker carries the
//! whole content: the original text can be recovered from it, markers can be
//! compared for equality and lexicographic order, and equality claims between
//! two markers can be checked.
//!
//! Modules, leaves first:
//! - [`to_uint`]: decimal digits and digit chains, the numeric substrate of
//!   the encoding;
//! - [`tstr_type`]: the [`TStr`] marker, its construction from text or from a
//!   number, and the conversion back to text;
//! - [`utils`]: plain byte-sequence comparisons;
//! - [`tstr_cmp`]: equality and lexicographic ordering of markers, with the
//!   laws that make the ordering a strict total order;
//! - [`asserts`]: checked equality claims between markers.

pub mod asserts;
pub mod to_uint;
pub mod tstr_cmp;
pub mod tstr_type;
pub mod utils;

pub use crate::asserts::NotEqualError;
pub use crate::to_uint::Digit;
pub use crate::to_uint::DigitChain;
pub use crate::tstr_type::TStr;
pub use crate::utils::StrOrdering;
