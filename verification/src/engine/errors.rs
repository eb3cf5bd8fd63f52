use vstd::prelude::*;

verus! {

/// Error taxonomy of the ranking engine. Every variant is terminal for the
/// current call: nothing inside the engine retries.
#[derive(Debug, Clone, PartialEq, Eq)]
pub enum EngineError {
    /// `top_k` was zero, the query was empty, or the query length differed
    /// from the backend dimension. No backend call was made.
    InvalidInput(String),
    /// A normalization step met an all-zero vector: the original query, or
    /// the PRF-blended query after pathological centroid cancellation.
    DegenerateVector,
    /// The backend failed; its own message is kept verbatim.
    Backend(String),
    /// Every candidate across all segments was vote-classified Noise.
    NoSurvivors,
    /// The survivor list handed to PRF reconstruction was empty.
    EmptySurvivorSet,
    /// A fetched survivor vector's length differed from the query length.
    DimensionMismatch,
    /// The convergence rerank produced zero ranked documents.
    EmptyResult,
}

/// Errors of the indexing and filtering layers around the engine.
#[derive(Debug, Clone, PartialEq, Eq)]
pub enum CoreError {
    InvalidInput(String),
    InvalidConfig(String),
    Db(String),
    Http(String),
    Serialization(String),
    Runtime(String),
}

/// Result of an indexing or filtering operation.
pub type CoreResult<T> = Result<T, CoreError>;

} // verus!
