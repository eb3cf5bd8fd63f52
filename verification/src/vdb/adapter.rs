use vstd::prelude::*;

use crate::math::linalg::FIXED_ONE;

verus! {

/// Opaque document identifier, unique per backend.
pub type DocId = u32;

/// Fixed-point relevance score; higher is better.
pub type Score = i64;

/// One search hit: a document identifier with its score.
pub type ScoredDoc = (DocId, Score);

/// A document identifier together with its stored embedding.
#[derive(Debug, Clone)]
pub struct DocVector {
    pub id: DocId,
    pub vector: Vec<i64>,
}

/// The retrieval port: the capability any vector-database backend must
/// offer to the ranking core. The core consumes this trait and never
/// implements it itself, except for the in-memory backend.
///
/// The contract is the backend side of the bargain: `search` never returns
/// more hits than asked for and orders them best-first, and `fetch_vectors`
/// returns one stored unit-sphere embedding, of the backend's fixed
/// dimension, for each requested identifier, in request order.
pub trait VdbAdapter {
    /// Embedding width of this backend, as a specification-level value.
    spec fn spec_dim(&self) -> usize;

    /// Embedding width of this backend.
    fn dim(&self) -> (d: usize)
        ensures
            d == self.spec_dim(),
    ;

    /// Best-first search for the `limit` documents closest to `query`.
    fn search(&self, query: &Vec<i64>, limit: usize) -> (r: Result<Vec<ScoredDoc>, String>)
        requires
            query@.len() == self.spec_dim(),
            forall|i: int| 0 <= i < query@.len() ==> -FIXED_ONE <= #[trigger] query@[i] <= FIXED_ONE,
        ensures
            r matches Ok(hits) ==> {
                &&& hits@.len() <= limit
                &&& forall|i: int, j: int| 0 <= i <= j < hits@.len() ==> (#[trigger] hits@[i]).1 >= (#[trigger] hits@[j]).1
            },
    ;

    /// The stored embedding of each requested document, in request order.
    fn fetch_vectors(&self, doc_ids: &Vec<DocId>) -> (r: Result<Vec<DocVector>, String>)
        ensures
            r matches Ok(vs) ==> {
                &&& vs@.len() == doc_ids@.len()
                &&& forall|i: int| 0 <= i < vs@.len() ==> (#[trigger] vs@[i]).id == doc_ids@[i]
                &&& forall|i: int| 0 <= i < vs@.len() ==> (#[trigger] vs@[i]).vector@.len() == self.spec_dim()
                &&& forall|i: int, k: int|
                    0 <= i < vs@.len() && 0 <= k < (#[trigger] vs@[i]).vector@.len() ==> -FIXED_ONE
                        <= #[trigger] vs@[i].vector@[k] <= FIXED_ONE
            },
    ;
}

} // verus!
