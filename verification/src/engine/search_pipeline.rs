use vstd::prelude::*;

use crate::engine::errors::{CoreError, CoreResult};
use crate::engine::filter::{FilterDecision, FilterHttpConfigPayload};
use crate::index::records::PageNodeRecord;
use vstd::relations::sorted_by;

use crate::index::sql::{all_white, has_visible};
use crate::math::linalg::FIXED_ONE;
use crate::math::topk::{lemma_insert_multiset, lemma_sorted_prefix_pair};
use crate::text;

verus! {

/// Connection settings of the relational index.
#[derive(Debug, Clone)]
pub struct PostgresConfigPayload {
    pub dsn: String,
    pub summary_table: String,
    pub page_table: String,
    pub pool_min: u32,
    pub pool_max: u32,
    pub connect_timeout_ms: u64,
    pub statement_timeout_ms: u64,
}

/// One tree-search request.
#[derive(Debug, Clone)]
pub struct SearchRequestPayload {
    pub job_id: String,
    pub question: String,
    pub query_embedding: Vec<i64>,
    pub top_k: usize,
    pub entry_limit: usize,
    pub page_limit: usize,
    pub worker_concurrency: usize,
    pub postgres: PostgresConfigPayload,
    pub filter_http: FilterHttpConfigPayload,
    pub metadata: Option<serde_json::Value>,
}

/// One kept page candidate of a tree search.
#[derive(Debug, Clone)]
pub struct SearchCandidatePayload {
    pub node_id: String,
    pub path: String,
    pub score: i64,
    pub content: String,
    pub image_url: Option<String>,
    pub reason: String,
}

/// Counters of one tree-search run.
#[derive(Debug, Clone)]
pub struct SearchMetricsPayload {
    pub entry_count: usize,
    pub page_count: usize,
    pub kept_count: usize,
    pub elapsed_ms: u128,
}

/// The full result of one tree-search run.
#[derive(Debug, Clone)]
pub struct SearchResultPayload {
    pub job_id: String,
    pub candidates: Vec<SearchCandidatePayload>,
    pub metrics: SearchMetricsPayload,
}

/// Whether a search request passes the fail-fast validation.
pub open spec fn payload_valid(p: &SearchRequestPayload) -> bool {
    &&& !all_white(p.job_id@)
    &&& !all_white(p.question@)
    &&& p.query_embedding@.len() >= 1
    &&& p.top_k >= 1
    &&& p.entry_limit >= 1
    &&& p.page_limit >= 1
    &&& p.worker_concurrency >= 1
}

/// Validates a search request: a non-blank job and question, a non-empty
/// embedding, and positive limits and concurrency.
pub fn validate_payload(payload: &SearchRequestPayload) -> (r: CoreResult<()>)
    ensures
        r is Ok <==> payload_valid(payload),
        r matches Err(e) ==> e is InvalidInput,
{
    if !has_visible(payload.job_id.as_str()) {
        return Err(CoreError::InvalidInput("job_id must not be empty".to_string()));
    }
    if !has_visible(payload.question.as_str()) {
        return Err(CoreError::InvalidInput("question must not be empty".to_string()));
    }
    if payload.query_embedding.len() == 0 {
        return Err(
            CoreError::InvalidInput("query_embedding must hold at least one value".to_string()),
        );
    }
    if payload.top_k == 0 {
        return Err(CoreError::InvalidInput("top_k must be at least 1".to_string()));
    }
    if payload.entry_limit == 0 {
        return Err(CoreError::InvalidInput("entry_limit must be at least 1".to_string()));
    }
    if payload.page_limit == 0 {
        return Err(CoreError::InvalidInput("page_limit must be at least 1".to_string()));
    }
    if payload.worker_concurrency == 0 {
        return Err(
            CoreError::InvalidInput("worker_concurrency must be at least 1".to_string()),
        );
    }
    Ok(())
}

/// Turns one expanded page into a kept candidate: dropped without a filter
/// decision or with a negative one; otherwise the parent's score, clamped
/// into the fixed-point unit interval, is attached together with the
/// filter's reason.
pub fn to_candidate(
    page: PageNodeRecord,
    parent_score: Option<i64>,
    decision: Option<&FilterDecision>,
) -> (r: Option<SearchCandidatePayload>)
    ensures
        decision is None ==> r is None,
        decision matches Some(d) && !d.keep ==> r is None,
        decision matches Some(d) ==> d.keep ==> (r matches Some(c) && {
            &&& c.node_id@ == page.node_id@
            &&& c.path@ == page.path@
            &&& c.content@ == page.content@
            &&& c.image_url == page.image_url
            &&& c.reason@ == d.reason@
            &&& c.score == clamp_unit(
                if parent_score is Some {
                    parent_score->0 as int
                } else {
                    0int
                },
            )
        }),
{
    let d = match decision {
        Some(d) => d,
        None => {
            return None;
        },
    };
    if !d.keep {
        return None;
    }
    let raw = match parent_score {
        Some(s) => s,
        None => 0,
    };
    let score: i64 = if raw < 0 {
        0
    } else if raw > FIXED_ONE {
        FIXED_ONE
    } else {
        raw
    };
    Some(
        SearchCandidatePayload {
            node_id: page.node_id,
            path: page.path,
            score,
            content: page.content,
            image_url: page.image_url,
            reason: clone_string(&d.reason),
        },
    )
}

/// Ranking order of kept candidates: higher parent score first, equal
/// scores by ascending tree path.
pub open spec fn candidate_leq(a: SearchCandidatePayload, b: SearchCandidatePayload) -> bool {
    a.score > b.score || (a.score == b.score && text::lex_leq(a.path@, b.path@))
}

/// `candidate_leq` as a first-class relation.
pub open spec fn candidate_order() -> spec_fn(
    SearchCandidatePayload,
    SearchCandidatePayload,
) -> bool {
    |a: SearchCandidatePayload, b: SearchCandidatePayload| candidate_leq(a, b)
}

/// The candidate order is transitive.
proof fn lemma_candidate_trans(a: SearchCandidatePayload, b: SearchCandidatePayload, c: SearchCandidatePayload)
    requires
        candidate_leq(a, b),
        candidate_leq(b, c),
    ensures
        candidate_leq(a, c),
{
    if a.score == b.score && b.score == c.score {
        text::lemma_lex_trans(a.path@, b.path@, c.path@);
    }
}

/// Any two candidates compare one way or the other.
proof fn lemma_candidate_total(a: SearchCandidatePayload, b: SearchCandidatePayload)
    ensures
        candidate_leq(a, b) || candidate_leq(b, a),
{
    if a.score == b.score {
        text::lemma_lex_total(a.path@, b.path@);
    }
}

/// Exec decision of the candidate order.
fn candidate_le(a: &SearchCandidatePayload, b: &SearchCandidatePayload) -> (r: bool)
    ensures
        r == candidate_leq(*a, *b),
{
    if a.score != b.score {
        a.score > b.score
    } else {
        text::str_lex_le(a.path.as_str(), b.path.as_str())
    }
}

/// Ranks the kept candidates best-first — higher score first, ties by
/// ascending tree path — and truncates to the requested `top_k`: the
/// result is the first `min(top_k, len)` entries of a sorted reordering
/// of the input.
pub fn rank_candidates(kept: &mut Vec<SearchCandidatePayload>, top_k: usize)
    ensures
        sorted_by(final(kept)@, candidate_order()),
        final(kept)@.len() == if old(kept)@.len() <= top_k as int {
            old(kept)@.len() as int
        } else {
            top_k as int
        },
        exists|full: Seq<SearchCandidatePayload>|
            #![trigger full.to_multiset()]
            {
                &&& full.to_multiset() == old(kept)@.to_multiset()
                &&& sorted_by(full, candidate_order())
                &&& final(kept)@ == full.take(final(kept)@.len() as int)
            },
{
    let ghost orig = kept@;
    let n = kept.len();
    if n > 1 {
        let mut i: usize = 1;
        while i < n
            invariant
                1 <= i <= n,
                n == kept@.len(),
                kept@.to_multiset() == orig.to_multiset(),
                sorted_by(kept@.take(i as int), candidate_order()),
            decreases n - i,
        {
            let ghost s0 = kept@;
            let y = kept.remove(i);
            let ghost s1 = kept@;
            let mut p: usize = i;
            loop
                invariant
                    0 <= p <= i < n,
                    kept@ == s1,
                    s1 == s0.remove(i as int),
                    s1.len() == n - 1,
                    n == s0.len(),
                    y == s0[i as int],
                    forall|k: int| 0 <= k < i as int ==> #[trigger] s1[k] == s0[k],
                    forall|k: int| p <= k < i as int ==> candidate_leq(y, #[trigger] s1[k]),
                    sorted_by(s0.take(i as int), candidate_order()),
                ensures
                    0 <= p <= i,
                    kept@ == s1,
                    forall|k: int| p <= k < i as int ==> candidate_leq(y, #[trigger] s1[k]),
                    forall|k: int| 0 <= k < p as int ==> candidate_leq(#[trigger] s1[k], y),
                decreases p,
            {
                if p == 0 {
                    break ;
                }
                let prev = kept.get(p - 1).unwrap();
                if candidate_le(prev, &y) {
                    proof {
                        assert forall|k: int| 0 <= k < p as int implies candidate_leq(
                            #[trigger] s1[k],
                            y,
                        ) by {
                            if k < p - 1 {
                                lemma_sorted_prefix_pair(s0, candidate_order(), i as int, k, p - 1);
                                lemma_candidate_trans(s0[k], s0[p - 1], y);
                            }
                        }
                    }
                    break ;
                }
                proof {
                    lemma_candidate_total(s1[p - 1], y);
                    assert(candidate_leq(y, s1[p - 1]));
                }
                p = p - 1;
            }
            kept.insert(p, y);
            proof {
                let s2 = s1.insert(p as int, y);
                assert(kept@ == s2);
                broadcast use vstd::seq_lib::group_to_multiset_ensures;

                lemma_insert_multiset(s1, p as int, y);
                assert(s0.contains(s0[i as int]));
                assert(s2.to_multiset() =~= s0.to_multiset());
                assert forall|a2: int, b2: int|
                    0 <= a2 < b2 < i as int + 1 implies candidate_leq(
                    #[trigger] s2[a2],
                    #[trigger] s2[b2],
                ) by {
                    assert(forall|k: int|
                        0 <= k < p as int ==> #[trigger] s2[k] == s1[k] && s2[k] == s0[k]);
                    assert(s2[p as int] == y);
                    assert(forall|k: int|
                        (p as int) < k <= i as int ==> #[trigger] s2[k] == s1[k - 1] && s2[k]
                            == s0[k - 1]);
                    if b2 < p {
                        lemma_sorted_prefix_pair(s0, candidate_order(), i as int, a2, b2);
                    } else if b2 == p {
                        assert(candidate_leq(s1[a2], y));
                    } else {
                        if a2 < p {
                            assert(candidate_leq(s1[a2], y));
                            assert(candidate_leq(y, s1[b2 - 1]));
                            lemma_candidate_trans(s0[a2], y, s0[b2 - 1]);
                        } else if a2 == p {
                            assert(candidate_leq(y, s1[b2 - 1]));
                        } else {
                            lemma_sorted_prefix_pair(s0, candidate_order(), i as int, a2 - 1, b2 - 1);
                        }
                    }
                }
                assert(sorted_by(s2.take(i as int + 1), candidate_order()));
            }
            i = i + 1;
        }
        proof {
            assert(kept@.take(n as int) =~= kept@);
        }
    }
    let ghost full = kept@;
    if kept.len() > top_k {
        kept.truncate(top_k);
    }
    proof {
        assert(full.to_multiset() == orig.to_multiset());
        assert(sorted_by(kept@, candidate_order())) by {
            assert forall|a2: int, b2: int| 0 <= a2 < b2 < kept@.len() implies candidate_leq(
                #[trigger] kept@[a2],
                #[trigger] kept@[b2],
            ) by {
                assert(kept@[a2] == full[a2]);
                assert(kept@[b2] == full[b2]);
                assert(candidate_order()(full[a2], full[b2]));
            }
        }
        assert(kept@ =~= full.take(kept@.len() as int));
    }
}

/// A score clamped into `[0, FIXED_ONE]`.
pub open spec fn clamp_unit(s: int) -> int {
    if s < 0 {
        0int
    } else if s > FIXED_ONE as int {
        FIXED_ONE as int
    } else {
        s
    }
}

/// A fresh string holding the same characters.
fn clone_string(s: &String) -> (r: String)
    ensures
        r@ == s@,
{
    s.as_str().to_owned()
}

} // verus!
