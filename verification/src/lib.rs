//! A local full-text search engine: an inverted index over a document corpus
//! answering keyword, phrase, wildcard, fuzzy, and tag queries with
//! relevance-ranked, snippet-annotated results.
#![verifier::loop_isolation(false)]

pub mod cache;
pub mod classify;
pub mod codec;
pub mod errors;
pub mod extract;
pub mod doc;
pub mod fuzzy;
pub mod graph;
pub mod index;
pub mod laws;
pub mod postings;
pub mod rank;
pub mod score;
pub mod search;
pub mod snippet;
pub mod sync;
pub mod tags;
pub mod text;
pub mod tokenizer;

use vstd::prelude::*;

verus! {

/// Fixed-point scale used for relevance scores: a score of `SCORE_SCALE`
/// stands for 1.0.
pub const SCORE_SCALE: u64 = 1_000_000;

/// Maximum edit distance accepted by fuzzy term resolution.
pub const FUZZY_THRESHOLD: usize = 2;

} // verus!
