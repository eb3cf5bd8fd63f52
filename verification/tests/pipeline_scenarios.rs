use std::cell::RefCell;

use svve_core::engine::errors::EngineError;
use svve_core::engine::expansion::{
    build_prf_query, check_stability, jaccard_counts, rerank_until_top_k,
};
use svve_core::engine::pipeline::execute_search;
use svve_core::math::linalg::FIXED_ONE;
use svve_core::vdb::adapter::{DocId, DocVector, VdbAdapter};
use svve_core::vdb::memory::InMemoryVdb;

fn fixture_adapter() -> InMemoryVdb {
    let scale = |xs: [f64; 4]| -> Vec<i64> {
        xs.iter().map(|x| (x * FIXED_ONE as f64) as i64).collect()
    };
    let docs: Vec<(DocId, Vec<i64>)> = vec![
        (1, scale([1.0, 0.0, 0.0, 0.0])),
        (2, scale([0.9, 0.1, 0.0, 0.0])),
        (3, scale([0.0, 1.0, 0.0, 0.0])),
        (4, scale([0.0, 0.0, 1.0, 0.0])),
        (5, scale([0.0, 0.0, 0.0, 1.0])),
        (6, scale([0.7, 0.2, 0.1, 0.0])),
    ];
    InMemoryVdb::from_docs(&docs).expect("the fixture documents must be accepted")
}

#[test]
fn fixed_pipeline_returns_requested_top_k_when_available() {
    let adapter = fixture_adapter();

    let query: Vec<i64> = vec![FIXED_ONE, 0, 0, 0];
    let (ids, scores) = execute_search(&adapter, &query, 3).expect("검색이 성공해야 합니다");

    assert_eq!(ids.len(), 3);
    assert_eq!(scores.len(), 3);
    // The PRF correction blends the survivor centroid into the query, which
    // pulls it slightly off the exact-match axis: the near-duplicate that
    // shares the centroid's off-axis mass ranks first, ahead of the exact
    // match.
    assert_eq!(ids[0], 2);
    assert_eq!(ids[1], 1);
}

#[test]
fn fixture_returns_the_three_highest_dot_product_documents() {
    let adapter = fixture_adapter();
    let query: Vec<i64> = vec![FIXED_ONE, 0, 0, 0];
    let (ids, scores) = execute_search(&adapter, &query, 3).expect("the fixture search must work");
    let mut returned = ids.clone();
    returned.sort();
    assert_eq!(returned, vec![1, 2, 6]);
    assert!(scores[0] >= scores[1] && scores[1] >= scores[2]);
}

#[test]
fn zero_vector_query_is_rejected_as_degenerate() {
    let adapter = fixture_adapter();
    let query: Vec<i64> = vec![0, 0, 0, 0];
    let result = execute_search(&adapter, &query, 3);
    assert_eq!(result, Err(EngineError::DegenerateVector));
}

#[test]
fn invalid_inputs_fail_fast() {
    let adapter = fixture_adapter();
    let query: Vec<i64> = vec![FIXED_ONE, 0, 0, 0];
    assert!(matches!(
        execute_search(&adapter, &query, 0),
        Err(EngineError::InvalidInput(_))
    ));
    let empty: Vec<i64> = vec![];
    assert!(matches!(
        execute_search(&adapter, &empty, 3),
        Err(EngineError::InvalidInput(_))
    ));
    let wrong_dim: Vec<i64> = vec![FIXED_ONE, 0, 0];
    assert!(matches!(
        execute_search(&adapter, &wrong_dim, 3),
        Err(EngineError::InvalidInput(_))
    ));
}

/// A backend that counts its search calls and returns fewer hits than any
/// requested limit: the reranker must stop after the first round.
struct ExhaustedVdb {
    calls: RefCell<usize>,
}

impl VdbAdapter for ExhaustedVdb {
    fn spec_dim(&self) -> usize {
        4
    }

    fn dim(&self) -> usize {
        4
    }

    fn search(&self, _query: &Vec<i64>, _limit: usize) -> Result<Vec<(u32, i64)>, String> {
        *self.calls.borrow_mut() += 1;
        Ok(vec![(1, 900_000), (2, 800_000)])
    }

    fn fetch_vectors(&self, doc_ids: &Vec<DocId>) -> Result<Vec<DocVector>, String> {
        Ok(doc_ids
            .iter()
            .map(|id| DocVector { id: *id, vector: vec![FIXED_ONE, 0, 0, 0] })
            .collect())
    }
}

#[test]
fn backend_exhaustion_stops_reranking_after_round_one() {
    let adapter = ExhaustedVdb { calls: RefCell::new(0) };
    let prf: Vec<i64> = vec![FIXED_ONE, 0, 0, 0];
    let ranked = rerank_until_top_k(&adapter, &prf, 3).expect("the rerank must succeed");
    assert_eq!(*adapter.calls.borrow(), 1);
    assert_eq!(ranked, vec![(1, 900_000), (2, 800_000)]);
}

/// A backend that answers segment (masked) queries but nothing for the
/// full PRF query, so reranking ends with nothing.
struct VanishingVdb;

impl VdbAdapter for VanishingVdb {
    fn spec_dim(&self) -> usize {
        4
    }

    fn dim(&self) -> usize {
        4
    }

    fn search(&self, query: &Vec<i64>, _limit: usize) -> Result<Vec<(u32, i64)>, String> {
        if query.iter().any(|c| *c == 0) {
            Ok(vec![(1, 900_000), (2, 800_000)])
        } else {
            Ok(vec![])
        }
    }

    fn fetch_vectors(&self, doc_ids: &Vec<DocId>) -> Result<Vec<DocVector>, String> {
        let c = FIXED_ONE / 2;
        Ok(doc_ids
            .iter()
            .map(|id| DocVector { id: *id, vector: vec![c, c, c, c] })
            .collect())
    }
}

#[test]
fn empty_rerank_result_is_reported() {
    let query: Vec<i64> = vec![FIXED_ONE / 2, FIXED_ONE / 2, FIXED_ONE / 2, FIXED_ONE / 2];
    let result = execute_search(&VanishingVdb, &query, 3);
    assert_eq!(result, Err(EngineError::EmptyResult));
}

/// A backend whose every search answer names a different document, so no
/// candidate ever gets a second vote.
struct ScatterVdb {
    calls: RefCell<u32>,
}

impl VdbAdapter for ScatterVdb {
    fn spec_dim(&self) -> usize {
        4
    }

    fn dim(&self) -> usize {
        4
    }

    fn search(&self, _query: &Vec<i64>, _limit: usize) -> Result<Vec<(u32, i64)>, String> {
        let mut n = self.calls.borrow_mut();
        *n += 1;
        Ok(vec![(*n, 900_000)])
    }

    fn fetch_vectors(&self, _doc_ids: &Vec<DocId>) -> Result<Vec<DocVector>, String> {
        Err("no vectors here".to_string())
    }
}

#[test]
fn all_noise_candidates_mean_no_survivors() {
    let query: Vec<i64> = vec![FIXED_ONE, 0, 0, 0];
    let result = execute_search(&ScatterVdb { calls: RefCell::new(0) }, &query, 3);
    assert_eq!(result, Err(EngineError::NoSurvivors));
}

/// A backend whose fetch fails: the error text must come through verbatim.
struct FailingFetchVdb;

impl VdbAdapter for FailingFetchVdb {
    fn spec_dim(&self) -> usize {
        4
    }

    fn dim(&self) -> usize {
        4
    }

    fn search(&self, _query: &Vec<i64>, _limit: usize) -> Result<Vec<(u32, i64)>, String> {
        Ok(vec![(1, 900_000), (2, 800_000)])
    }

    fn fetch_vectors(&self, _doc_ids: &Vec<DocId>) -> Result<Vec<DocVector>, String> {
        Err("vector store unavailable".to_string())
    }
}

#[test]
fn backend_fetch_failure_is_propagated_verbatim() {
    let query: Vec<i64> = vec![FIXED_ONE, 0, 0, 0];
    let result = execute_search(&FailingFetchVdb, &query, 3);
    assert_eq!(
        result,
        Err(EngineError::Backend("vector store unavailable".to_string()))
    );
}

/// A backend that fetches vectors of the wrong width.
struct WrongWidthVdb;

impl VdbAdapter for WrongWidthVdb {
    fn spec_dim(&self) -> usize {
        4
    }

    fn dim(&self) -> usize {
        4
    }

    fn search(&self, _query: &Vec<i64>, _limit: usize) -> Result<Vec<(u32, i64)>, String> {
        Ok(vec![(1, 900_000), (2, 800_000)])
    }

    fn fetch_vectors(&self, doc_ids: &Vec<DocId>) -> Result<Vec<DocVector>, String> {
        Ok(doc_ids
            .iter()
            .map(|id| DocVector { id: *id, vector: vec![FIXED_ONE, 0] })
            .collect())
    }
}

#[test]
fn mismatched_survivor_vectors_are_rejected() {
    let query: Vec<i64> = vec![FIXED_ONE, 0, 0, 0];
    let result = execute_search(&WrongWidthVdb, &query, 3);
    assert_eq!(result, Err(EngineError::DimensionMismatch));
}

#[test]
fn empty_survivor_list_is_rejected_by_the_prf_builder() {
    let adapter = fixture_adapter();
    let query: Vec<i64> = vec![FIXED_ONE, 0, 0, 0];
    let no_survivors: Vec<DocId> = vec![];
    let result = build_prf_query(&query, &no_survivors, &adapter);
    assert_eq!(result, Err(EngineError::EmptySurvivorSet));
}

#[test]
fn jaccard_boundaries_hold_exactly() {
    let a: Vec<DocId> = vec![1, 2, 3];
    let b: Vec<DocId> = vec![4, 5, 6];
    // Identical non-empty sets: intersection equals union, similarity 1.
    let (i1, u1) = jaccard_counts(&a, &a);
    assert_eq!(i1, 3);
    assert_eq!(u1, 3);
    // Disjoint non-empty sets: empty intersection, similarity 0.
    let (i2, u2) = jaccard_counts(&a, &b);
    assert_eq!(i2, 0);
    assert_eq!(u2, 6);
    // Two empty sets: similarity 1 by definition, so a pair of empty
    // stable top-K lists with zero sums counts as stable.
    let e: Vec<DocId> = vec![];
    let (i3, u3) = jaccard_counts(&e, &e);
    assert_eq!((i3, u3), (0, 0));
    assert!(check_stability(&e, &e, 0, 0));
}

#[test]
fn stability_check_holds_exactly_at_the_jaccard_boundary() {
    let prev: Vec<DocId> = (1..=20).collect();
    let curr: Vec<DocId> = (1..=19).collect();
    // Intersection 19, union 20: exactly the 0.95 threshold.
    assert!(check_stability(&prev, &curr, 1_000_000, 1_000_000));
    // Intersection 18, union 21: below the threshold.
    let moved: Vec<DocId> = (1..=18).chain([30]).collect();
    assert!(!check_stability(&prev, &moved, 1_000_000, 1_000_000));
}

#[test]
fn stability_check_holds_exactly_at_the_score_boundary() {
    let ids: Vec<DocId> = vec![1, 2, 3];
    // A move of exactly 0.5% of the previous sum still counts as stable.
    assert!(check_stability(&ids, &ids, 200_000, 201_000));
    // One more unit is unstable.
    assert!(!check_stability(&ids, &ids, 200_000, 201_001));
    // A zero previous sum tolerates only a zero current sum.
    assert!(check_stability(&ids, &ids, 0, 0));
    assert!(!check_stability(&ids, &ids, 0, 1));
}

/// A backend that fills every requested limit and keeps raising document
/// 0's score: the merged rank map must keep the best score seen across
/// rounds, never an earlier one.
struct RisingVdb {
    calls: RefCell<i64>,
}

impl VdbAdapter for RisingVdb {
    fn spec_dim(&self) -> usize {
        4
    }

    fn dim(&self) -> usize {
        4
    }

    fn search(&self, _query: &Vec<i64>, limit: usize) -> Result<Vec<(u32, i64)>, String> {
        let mut n = self.calls.borrow_mut();
        *n += 1;
        let mut hits: Vec<(u32, i64)> = Vec::with_capacity(limit);
        hits.push((0, 1_000_000 * *n));
        for k in 1..limit {
            hits.push((k as u32, 1_000 - (k as i64).min(999)));
        }
        Ok(hits)
    }

    fn fetch_vectors(&self, doc_ids: &Vec<DocId>) -> Result<Vec<DocVector>, String> {
        Ok(doc_ids
            .iter()
            .map(|id| DocVector { id: *id, vector: vec![FIXED_ONE, 0, 0, 0] })
            .collect())
    }
}

#[test]
fn merged_rank_map_keeps_the_best_score_per_document() {
    let adapter = RisingVdb { calls: RefCell::new(0) };
    let prf: Vec<i64> = vec![FIXED_ONE, 0, 0, 0];
    let ranked = rerank_until_top_k(&adapter, &prf, 1).expect("the rerank must succeed");
    let rounds = *adapter.calls.borrow();
    assert!(rounds >= 2, "the backend kept filling the limit, so several rounds must run");
    // Document 0 always wins, with the best (latest) score seen.
    assert_eq!(ranked, vec![(0, 1_000_000 * rounds)]);
}

#[test]
fn pipeline_works_when_dim_is_below_the_segment_count() {
    let docs: Vec<(DocId, Vec<i64>)> = vec![(1, vec![FIXED_ONE]), (2, vec![-FIXED_ONE])];
    let adapter = InMemoryVdb::from_docs(&docs).expect("one-dimensional documents are fine");
    let query: Vec<i64> = vec![FIXED_ONE];
    let (ids, scores) = execute_search(&adapter, &query, 2).expect("the search must succeed");
    assert_eq!(ids[0], 1);
    assert_eq!(ids.len(), 2);
    assert!(scores[0] > scores[1]);
}

#[test]
fn backend_construction_rejects_bad_documents() {
    let empty: Vec<(DocId, Vec<i64>)> = vec![];
    assert!(matches!(
        InMemoryVdb::from_docs(&empty),
        Err(EngineError::InvalidInput(_))
    ));
    let mismatched: Vec<(DocId, Vec<i64>)> = vec![(1, vec![FIXED_ONE, 0]), (2, vec![FIXED_ONE])];
    assert!(matches!(
        InMemoryVdb::from_docs(&mismatched),
        Err(EngineError::InvalidInput(_))
    ));
    let zero_doc: Vec<(DocId, Vec<i64>)> = vec![(1, vec![FIXED_ONE, 0]), (2, vec![0, 0])];
    assert_eq!(
        InMemoryVdb::from_docs(&zero_doc).err(),
        Some(EngineError::DegenerateVector)
    );
}

#[test]
fn rerank_with_zero_top_k_returns_nothing_and_asks_nothing() {
    let adapter = ExhaustedVdb { calls: RefCell::new(0) };
    let prf: Vec<i64> = vec![FIXED_ONE, 0, 0, 0];
    let ranked = rerank_until_top_k(&adapter, &prf, 0).expect("a zero top_k is a trivial success");
    assert!(ranked.is_empty());
    assert_eq!(*adapter.calls.borrow(), 0);
}
