use vstd::prelude::*;

use vstd::relations::sorted_by;

use crate::engine::errors::EngineError;
use crate::math::linalg;
use crate::math::linalg::{COORD_LIMIT, DOT_LEN_LIMIT, FIXED_ONE};
use crate::math::normalize;
use crate::math::topk;
use crate::math::topk::scored_order;
use crate::vdb::adapter::{DocId, DocVector, ScoredDoc, VdbAdapter};

verus! {

/// In-memory fixture backend: a fixed set of unit-sphere-normalized
/// documents, searched by exact inner product against the query.
pub struct InMemoryVdb {
    dim: usize,
    docs: Vec<DocVector>,
}

impl InMemoryVdb {
    /// Every stored document has the backend dimension, lies on the
    /// fixed-point unit sphere coordinate-wise, and the dimension is small
    /// enough for the exact dot product.
    #[verifier::type_invariant]
    pub closed spec fn wf(&self) -> bool {
        &&& self.dim <= DOT_LEN_LIMIT
        &&& forall|i: int|
            0 <= i < self.docs@.len() ==> (#[trigger] self.docs@[i]).vector@.len() == self.dim
        &&& forall|i: int, k: int|
            0 <= i < self.docs@.len() && 0 <= k < (#[trigger] self.docs@[i]).vector@.len()
                ==> -FIXED_ONE <= #[trigger] self.docs@[i].vector@[k] <= FIXED_ONE
    }

    /// The stored documents, in insertion order.
    pub closed spec fn spec_docs(&self) -> Seq<DocVector> {
        self.docs@
    }

    /// The exact scored hits of this backend for `query`: every stored
    /// document paired with its inner product against the query, in
    /// storage order.
    pub open spec fn spec_hits(&self, q: Seq<i64>) -> Seq<ScoredDoc> {
        Seq::new(
            self.spec_docs().len(),
            |i: int|
                (
                    self.spec_docs()[i].id,
                    linalg::dot_sum(q, self.spec_docs()[i].vector@) as i64,
                ),
        )
    }

    /// Builds a backend from raw documents. All documents must share one
    /// dimension, which must be positive and within the dot-product cap,
    /// and coordinates must be within the representation range; each
    /// document is normalized onto the unit sphere, so an all-zero
    /// document vector is rejected.
    pub fn from_docs(raw_docs: &Vec<(DocId, Vec<i64>)>) -> (r: Result<InMemoryVdb, EngineError>)
        ensures
            r matches Err(e) ==> (e is InvalidInput || e is DegenerateVector),
            r matches Ok(b) ==> {
                &&& raw_docs@.len() > 0
                &&& b.spec_dim() == raw_docs@[0].1@.len()
                &&& b.spec_docs().len() == raw_docs@.len()
                &&& forall|i: int|
                    0 <= i < raw_docs@.len() ==> (#[trigger] b.spec_docs()[i]).id
                        == raw_docs@[i].0
                &&& forall|i: int|
                    0 <= i < raw_docs@.len() ==> (#[trigger] b.spec_docs()[i]).vector@.len()
                        == raw_docs@[i].1@.len()
                &&& forall|i: int, k: int|
                    0 <= i < raw_docs@.len() && 0 <= k < raw_docs@[i].1@.len()
                        ==> #[trigger] b.spec_docs()[i].vector@[k] == linalg::scale_div(
                        raw_docs@[i].1@[k] as int,
                        linalg::sqrt_floor(linalg::norm_sq(raw_docs@[i].1@)),
                    )
            },
    {
        if raw_docs.len() == 0 {
            return Err(
                EngineError::InvalidInput("at least one document is required".to_string()),
            );
        }
        let dim = raw_docs.get(0).unwrap().1.len();
        if dim == 0 || dim > DOT_LEN_LIMIT {
            return Err(
                EngineError::InvalidInput(
                    "document dimension must be positive and within the supported range".to_string(),
                ),
            );
        }
        let mut docs: Vec<DocVector> = Vec::new();
        let n = raw_docs.len();
        for i in 0..n
            invariant
                n == raw_docs@.len(),
                dim <= DOT_LEN_LIMIT,
                docs@.len() == i,
                forall|x: int| 0 <= x < docs@.len() ==> (#[trigger] docs@[x]).vector@.len() == dim,
                forall|x: int, k: int|
                    0 <= x < docs@.len() && 0 <= k < (#[trigger] docs@[x]).vector@.len()
                        ==> -FIXED_ONE <= #[trigger] docs@[x].vector@[k] <= FIXED_ONE,
                forall|x: int| 0 <= x < i as int ==> (#[trigger] docs@[x]).id == raw_docs@[x].0,
                forall|x: int|
                    0 <= x < i as int ==> (#[trigger] docs@[x]).vector@.len()
                        == raw_docs@[x].1@.len(),
                forall|x: int, k: int|
                    0 <= x < i as int && 0 <= k < raw_docs@[x].1@.len()
                        ==> #[trigger] docs@[x].vector@[k] == linalg::scale_div(
                        raw_docs@[x].1@[k] as int,
                        linalg::sqrt_floor(linalg::norm_sq(raw_docs@[x].1@)),
                    ),
        {
            let entry = raw_docs.get(i).unwrap();
            if entry.1.len() != dim {
                return Err(
                    EngineError::InvalidInput(
                        "all documents must share one dimension".to_string(),
                    ),
                );
            }
            let nc = entry.1.len();
            for k in 0..nc
                invariant
                    nc == entry.1@.len(),
                    entry == raw_docs@[i as int],
                    forall|x: int|
                        0 <= x < k as int ==> -COORD_LIMIT <= #[trigger] entry.1@[x] <= COORD_LIMIT,
            {
                let c = *entry.1.get(k).unwrap();
                if c < -COORD_LIMIT || c > COORD_LIMIT {
                    return Err(
                        EngineError::InvalidInput(
                            "a document coordinate is outside the representable range".to_string(),
                        ),
                    );
                }
            }
            let normalized = match normalize::normalized_copy(&entry.1) {
                Some(v) => v,
                None => {
                    return Err(EngineError::DegenerateVector);
                },
            };
            docs.push(DocVector { id: entry.0, vector: normalized });
        }
        Ok(InMemoryVdb { dim, docs })
    }
}

impl VdbAdapter for InMemoryVdb {
    closed spec fn spec_dim(&self) -> usize {
        self.dim
    }

    fn dim(&self) -> (d: usize) {
        self.dim
    }

    fn search(&self, query: &Vec<i64>, limit: usize) -> (r: Result<Vec<ScoredDoc>, String>)
        ensures
            r matches Ok(hits) ==> hits@ == topk::ranked_take(
                self.spec_hits(query@),
                limit as int,
            ),
    {
        proof {
            use_type_invariant(self);
        }
        if query.len() != self.dim {
            return Err("query dimension does not match the backend dimension".to_string());
        }
        let mut hits: Vec<ScoredDoc> = Vec::new();
        let nd = self.docs.len();
        for i in 0..nd
            invariant
                nd == self.docs@.len(),
                self.wf(),
                query@.len() == self.dim,
                forall|x: int| 0 <= x < query@.len() ==> -FIXED_ONE <= #[trigger] query@[x] <= FIXED_ONE,
                hits@.len() == i,
                forall|x: int| 0 <= x < i as int ==> #[trigger] hits@[x] == self.spec_hits(query@)[x],
        {
            let doc = self.docs.get(i).unwrap();
            let score = linalg::dot(query, &doc.vector);
            hits.push((doc.id, score));
        }
        proof {
            assert(hits@ =~= self.spec_hits(query@));
        }
        let ghost pre = hits@;
        topk::sort_desc_take(&mut hits, limit);
        proof {
            broadcast use vstd::seq_lib::group_to_multiset_ensures;

            topk::lemma_scored_order_total();
            pre.lemma_sort_by_ensures(scored_order());
            let full = pre.sort_by(scored_order());
            assert(full.len() == full.to_multiset().len());
            assert(pre.len() == pre.to_multiset().len());
            assert(full.len() == pre.len());
            assert forall|i: int, j: int|
                0 <= i <= j < hits@.len() implies (#[trigger] hits@[i]).1 >= (
            #[trigger] hits@[j]).1 by {
                if i < j {
                    assert(hits@[i] == full[i]);
                    assert(hits@[j] == full[j]);
                    assert(scored_order()(full[i], full[j]));
                }
            }
        }
        Ok(hits)
    }

    fn fetch_vectors(&self, doc_ids: &Vec<DocId>) -> (r: Result<Vec<DocVector>, String>) {
        proof {
            use_type_invariant(self);
        }
        let mut vectors: Vec<DocVector> = Vec::new();
        let n = doc_ids.len();
        for i in 0..n
            invariant
                n == doc_ids@.len(),
                self.wf(),
                vectors@.len() == i,
                forall|x: int| 0 <= x < i as int ==> (#[trigger] vectors@[x]).id == doc_ids@[x],
                forall|x: int|
                    0 <= x < i as int ==> (#[trigger] vectors@[x]).vector@.len() == self.dim,
                forall|x: int, k: int|
                    0 <= x < i as int && 0 <= k < (#[trigger] vectors@[x]).vector@.len()
                        ==> -FIXED_ONE <= #[trigger] vectors@[x].vector@[k] <= FIXED_ONE,
        {
            let want = *doc_ids.get(i).unwrap();
            let mut found: bool = false;
            let nd = self.docs.len();
            for j in 0..nd
                invariant
                    nd == self.docs@.len(),
                    self.wf(),
                    want == doc_ids@[i as int],
                    vectors@.len() == i + if found {
                        1int
                    } else {
                        0int
                    },
                    forall|x: int| 0 <= x < i as int ==> (#[trigger] vectors@[x]).id == doc_ids@[x],
                    found ==> vectors@[i as int].id == want,
                    forall|x: int|
                        0 <= x < vectors@.len() ==> (#[trigger] vectors@[x]).vector@.len()
                            == self.dim,
                    forall|x: int, k: int|
                        0 <= x < vectors@.len() && 0 <= k < (#[trigger] vectors@[x]).vector@.len()
                            ==> -FIXED_ONE <= #[trigger] vectors@[x].vector@[k] <= FIXED_ONE,
            {
                if !found {
                    let doc = self.docs.get(j).unwrap();
                    if doc.id == want {
                        let copied = copy_coords(&doc.vector);
                        vectors.push(DocVector { id: doc.id, vector: copied });
                        found = true;
                    }
                }
            }
            if !found {
                return Err("a requested document is unknown to the backend".to_string());
            }
        }
        Ok(vectors)
    }
}

/// A fresh vector holding the same coordinates.
fn copy_coords(v: &Vec<i64>) -> (r: Vec<i64>)
    ensures
        r@ == v@,
{
    let mut out: Vec<i64> = Vec::new();
    let n = v.len();
    for i in 0..n
        invariant
            n == v@.len(),
            out@ == v@.take(i as int),
    {
        out.push(*v.get(i).unwrap());
        proof {
            assert(out@ =~= v@.take(i as int + 1));
        }
    }
    proof {
        assert(v@.take(n as int) =~= v@);
    }
    out
}

} // verus!
