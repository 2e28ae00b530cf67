//! A retrieval-augmented-generation support library: text documents grouped
//! into named collections, each carrying a fixed-point integer embedding, are
//! ranked against a query under one of three retrieval strategies — semantic
//! (embedding similarity), keyword (lexical match with a substring-scan
//! fallback), or hybrid (weighted fusion of both) — and the ranked results can
//! be rendered into a single context block.
//!
//! All scores, thresholds and weights are fixed-point values in thousandths
//! (milli-units): a score of `876` stands for `0.876`.

pub mod api;
pub mod arith;
pub mod enricher;
pub mod error;
pub mod fmt;
pub mod logistic;
pub mod metadata;
pub mod query;
pub mod search;
pub mod similarity;
pub mod store;
pub mod textproc;

pub use api::ApiResponse;
pub use enricher::RAGEnricher;
pub use error::Error;
pub use search::{SearchMode, SearchResult, EnrichResult};
pub use similarity::cosine_similarity;
pub use store::{Collection, Database, Document};

use vstd::prelude::*;

verus! {

/// Scores, thresholds and weights are fixed-point numbers in thousandths:
/// `SCORE_SCALE` is the representation of `1.0`.
pub const SCORE_SCALE: i64 = 1000;

} // verus!
