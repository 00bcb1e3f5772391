//! Exact-match search over sequence records with a Burrows-Wheeler
//! transform and an FM-index.
//!
//! Each record gets its own index over its sequence followed by the sentinel
//! `$`, so no match can span two records. A pattern is searched in every
//! record by backward search; the match set lists `(record id, offset)` in
//! record order and by ascending offset within a record.
//!
//! Choices where several behaviours would do:
//! - ingesting no records fails with `BuildError::EmptyCorpus`, and the
//!   previous index stays active;
//! - the empty pattern matches at every offset of every record;
//! - a pattern with a byte outside the alphabet has an empty match set;
//! - the occurrence table keeps a checkpoint every 32 positions;
//! - `IndexManager::ingest` takes `&mut self` and `search` takes `&self`, so
//!   ingestions are serialized with respect to each other and to searches.
use vstd::prelude::*;

pub mod alphabet;
pub mod lex;
pub mod suffix_array;
pub mod counting;
pub mod bwt;
pub mod occ;
pub mod fmindex;
pub mod corpus;

verus! {

} // verus!
