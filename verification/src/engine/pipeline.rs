use vstd::prelude::*;

use vstd::relations::sorted_by;

use crate::engine::errors::EngineError;
use crate::engine::expansion;
use crate::engine::voting;
use crate::math::linalg;
use crate::math::linalg::{COORD_LIMIT, FIXED_ONE};
use crate::math::normalize;
use crate::math::topk::{scored_leq, scored_order};
use crate::vdb::adapter::{DocId, ScoredDoc, VdbAdapter};
use crate::vdb::query;

verus! {

/// The identifier and score arrays read back as one hit list.
pub open spec fn pairs_of(ids: Seq<DocId>, scores: Seq<i64>) -> Seq<ScoredDoc>
    recommends
        ids.len() == scores.len(),
{
    Seq::new(ids.len(), |i: int| (ids[i], scores[i]))
}

/// Whether the inputs pass the orchestrator's fail-fast validation:
/// `top_k` at least one, a non-empty query, and the query length equal to
/// the backend dimension.
pub open spec fn valid_input<A: VdbAdapter>(adapter: &A, q: Seq<i64>, top_k: usize) -> bool {
    top_k >= 1 && q.len() >= 1 && q.len() == adapter.spec_dim()
}

/// Runs the whole ranking pipeline: validates, normalizes the query,
/// searches each of the four query segments, votes across the segment
/// results, selects the survivor set, rebuilds a PRF-corrected query from
/// the survivor centroid, reranks with expanding limits until the top-K
/// stabilizes, and returns parallel identifier and score arrays,
/// best-first.
pub fn execute_search<A: VdbAdapter>(adapter: &A, search_query: &Vec<i64>, top_k: usize) -> (r:
    Result<(Vec<DocId>, Vec<i64>), EngineError>)
    requires
        forall|i: int|
            0 <= i < search_query@.len() ==> -COORD_LIMIT <= #[trigger] search_query@[i]
                <= COORD_LIMIT,
    ensures
        !valid_input(adapter, search_query@, top_k) <==> (r matches Err(e) && e is InvalidInput),
        valid_input(adapter, search_query@, top_k) && linalg::norm_sq(search_query@) == 0 ==> r
            == Err::<(Vec<DocId>, Vec<i64>), EngineError>(EngineError::DegenerateVector),
        r matches Ok(out) ==> {
            &&& valid_input(adapter, search_query@, top_k)
            &&& linalg::norm_sq(search_query@) != 0
            &&& out.0@.len() == out.1@.len()
            &&& 1 <= out.0@.len() <= top_k
            &&& forall|i: int, j: int| 0 <= i < j < out.0@.len() ==> out.0@[i] != out.0@[j]
            &&& forall|i: int, j: int|
                0 <= i < j < out.0@.len() ==> scored_leq(
                    (out.0@[i], out.1@[i]),
                    (out.0@[j], out.1@[j]),
                )
            &&& expansion::ranked_from_rounds(pairs_of(out.0@, out.1@), top_k as int)
        },
        r matches Err(e) ==> (e is InvalidInput || e is DegenerateVector || e is Backend
            || e is NoSurvivors || e is DimensionMismatch || e is EmptyResult),
{
    if top_k == 0 {
        return Err(EngineError::InvalidInput("top_k must be at least 1".to_string()));
    }
    if search_query.len() == 0 {
        return Err(EngineError::InvalidInput("the query must not be empty".to_string()));
    }
    let dim = adapter.dim();
    if search_query.len() != dim {
        return Err(
            EngineError::InvalidInput(
                "the query length must equal the backend dimension".to_string(),
            ),
        );
    }
    let normalized_query = match normalize::normalized_copy(search_query) {
        Some(v) => v,
        None => {
            return Err(EngineError::DegenerateVector);
        },
    };
    let ranges = query::segment_ranges(normalized_query.len());
    let mut segment_results: Vec<Vec<ScoredDoc>> = Vec::new();
    let nr = ranges.len();
    for s in 0..nr
        invariant
            nr == ranges@.len(),
            valid_input(adapter, search_query@, top_k),
            linalg::norm_sq(search_query@) != 0,
            normalized_query@.len() == adapter.spec_dim(),
            forall|i: int|
                0 <= i < normalized_query@.len() ==> -FIXED_ONE <= #[trigger] normalized_query@[i]
                    <= FIXED_ONE,
            forall|i: int|
                0 <= i < nr as int ==> (#[trigger] ranges@[i]).start <= ranges@[i].end
                    <= normalized_query@.len(),
    {
        let segment_query = query::build_segment_query(&normalized_query, *ranges.get(s).unwrap());
        match adapter.search(&segment_query, query::SEGMENT_TOP_K) {
            Ok(hits) => {
                segment_results.push(hits);
            },
            Err(msg) => {
                return Err(EngineError::Backend(msg));
            },
        }
    }
    let vote_records = voting::merge_segment_results(&segment_results);
    let survivors = voting::select_survivor_ids(&vote_records, query::SURVIVOR_COUNT);
    if survivors.len() == 0 {
        return Err(EngineError::NoSurvivors);
    }
    let prf_query = match expansion::build_prf_query(&normalized_query, &survivors, adapter) {
        Ok(q) => q,
        Err(e) => {
            return Err(e);
        },
    };
    let final_ranked = match expansion::rerank_until_top_k(adapter, &prf_query, top_k) {
        Ok(v) => v,
        Err(e) => {
            return Err(e);
        },
    };
    if final_ranked.len() == 0 {
        return Err(EngineError::EmptyResult);
    }
    let mut doc_ids: Vec<DocId> = Vec::new();
    let mut scores: Vec<i64> = Vec::new();
    let n = final_ranked.len();
    for i in 0..n
        invariant
            n == final_ranked@.len(),
            doc_ids@.len() == i,
            scores@.len() == i,
            forall|k: int| 0 <= k < i as int ==> #[trigger] doc_ids@[k] == final_ranked@[k].0,
            forall|k: int| 0 <= k < i as int ==> #[trigger] scores@[k] == final_ranked@[k].1,
    {
        let hit = *final_ranked.get(i).unwrap();
        doc_ids.push(hit.0);
        scores.push(hit.1);
    }
    proof {
        assert forall|i: int, j: int| 0 <= i < j < doc_ids@.len() implies scored_leq(
            (doc_ids@[i], scores@[i]),
            (doc_ids@[j], scores@[j]),
        ) by {
            assert((doc_ids@[i], scores@[i]) == final_ranked@[i]);
            assert((doc_ids@[j], scores@[j]) == final_ranked@[j]);
            assert(scored_order()(final_ranked@[i], final_ranked@[j]));
        }
        assert(pairs_of(doc_ids@, scores@) =~= final_ranked@);
    }
    Ok((doc_ids, scores))
}

} // verus!
