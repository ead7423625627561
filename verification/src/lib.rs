//! An embedding-augmented knowledge store.
//!
//! The library models a persistent knowledge base that keeps structured
//! conversational records (accounts, channels, messages, documents) side by
//! side with vector embeddings of their free-text content, and answers both
//! exact relational lookups and nearest-neighbour queries.  Embedding vectors
//! are handled as sequences of 32-bit IEEE-754 bit patterns, so that the
//! binary codec and every table transition are verified exactly; producing
//! the bit patterns (and the distances between stored vectors) is the job of
//! an outside embedding provider and search engine, which callers drive.

pub mod codec;
pub mod knowledge;
pub mod ranking;
pub mod records;
pub mod store;
pub mod time_fmt;

use vstd::prelude::*;

verus! {

/// A malformed vector blob: its byte length is not a multiple of four.
#[derive(Clone, Copy, Debug, PartialEq, Eq, Structural)]
pub enum CodecError {
    InvalidLength,
}

} // verus!
