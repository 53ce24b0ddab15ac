//! Lexing core of a JSON parser.
//!
//! - `classify`: the chunked byte classifier, which turns one chunk of bytes
//!   into masks with one bit per byte (equal to a byte, at most a bound,
//!   structural, whitespace), folds quote masks into string regions and
//!   flattens masks into offsets.
//! - `scan`: the structural scanner, which drives the classifier over a
//!   whole document, carries backslash and quote parity from chunk to chunk,
//!   and builds the structural index.
//! - `deser`: the string decoder, which resolves escapes in place.
//! - `unicode`: `\u` escapes and the encoding of code points into bytes.
//! - `bits`: masks and the facts about them that the proofs use.
//! - `error`: the decoder's errors.
use vstd::prelude::*;

pub mod bits;
pub mod classify;
pub mod deser;
pub mod error;
pub mod scan;
pub mod unicode;

verus! {

} // verus!
