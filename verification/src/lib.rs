//! A triple store kept as dictionary-encoded integer triples in chunked arrays.
//!
//! Terms are mapped to dense ids by a [`dictionary::Dictionary`]; encoded
//! triples are laid out in three indexes, one per leading position, whose
//! rows are addressed by the leading id; and [`query::BasicGraphPattern`]
//! answers exact-match patterns against those indexes.

pub mod array;
pub mod config;
pub mod dictionary;
pub mod error;
pub mod index;
pub mod layout;
pub mod order;
pub mod query;
pub mod rdf_format;
pub mod storage;
pub mod utils;

use vstd::prelude::*;

verus! {

/// An encoded triple: subject id, predicate id, object id.
pub type Triple = [u64; 3];

} // verus!
