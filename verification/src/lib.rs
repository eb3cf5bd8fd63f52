//! Ranking core of a segmented vector-search engine.
//!
//! Given a query embedding and a pluggable vector-database backend (the
//! retrieval port in `vdb::adapter`), `engine::pipeline::execute_search`
//! produces a final top-K ranked document list through query sharding
//! (`vdb::query`), cross-shard voting (`engine::voting`), pseudo-relevance
//! -feedback query reconstruction, and convergence-driven iterative
//! reranking (`engine::expansion`).
//!
//! Embedding coordinates and scores are fixed-point integers: an `i64`
//! value `x` stands for the real number `x / FIXED_ONE`. Every ranking
//! decision — sorting, tie-breaks, voting, the convergence thresholds — is
//! exact integer arithmetic, proven free of rounding and of the backing
//! hash maps' iteration order; the final list is the ranked slice of a
//! best-score merge over the executed search rounds.
//!
//! Around the engine, `engine::filter`, `engine::search_pipeline`,
//! `engine::ingestion` and `index` hold the decision logic of the
//! tree-search and ingestion layers; their I/O lives outside this crate.

pub mod engine;
pub mod ext;
pub mod index;
pub mod math;
pub mod text;
pub mod vdb;
