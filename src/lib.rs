//! BM25 relevance search over documents made of path-like strings.
//!
//! `tokenize` splits paths into terms, `index::build` builds the postings,
//! document lengths and idf values of a corpus, `search::search` computes the
//! exact per-posting BM25 contributions of a query, `rank::rank` orders and
//! filters scored documents, and `codec` stores an index as bytes.
use vstd::prelude::*;

pub mod codec;
pub mod index;
pub mod rank;
pub mod search;
pub mod tokenize;

verus! {

} // verus!
