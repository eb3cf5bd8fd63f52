use vstd::prelude::*;

use vstd::relations::sorted_by;

use crate::engine::errors::EngineError;
use crate::engine::voting;
use crate::ext::maps;
use crate::math::linalg::FIXED_ONE;
use crate::math::normalize;
use crate::math::topk;
use crate::math::topk::{scored_leq, scored_order};
use crate::vdb::adapter::{DocId, DocVector, ScoredDoc, VdbAdapter};
use crate::vdb::fetch;
use crate::vdb::query;

verus! {

/// Jaccard early-stop threshold, as the exact fraction
/// `EARLY_STOP_JACCARD_NUM / EARLY_STOP_JACCARD_DEN` (0.95).
pub const EARLY_STOP_JACCARD_NUM: u64 = 95;

/// Denominator of the Jaccard early-stop threshold.
pub const EARLY_STOP_JACCARD_DEN: u64 = 100;

/// Relative score-improvement early-stop threshold, as the exact fraction
/// `EARLY_STOP_SCORE_NUM / EARLY_STOP_SCORE_DEN` (0.005).
pub const EARLY_STOP_SCORE_NUM: u64 = 5;

/// Denominator of the score-improvement early-stop threshold.
pub const EARLY_STOP_SCORE_DEN: u64 = 1000;

/// Number of consecutive qualifying rounds before the rerank stops early.
pub const EARLY_STOP_STABLE_ROUNDS: usize = 2;

/// Whether the overlap of two identifier sets reaches the Jaccard
/// early-stop threshold. Two empty sets overlap fully (Jaccard 1 by
/// definition), which this comparison yields vacuously.
pub open spec fn jaccard_at_least_threshold(a: Set<DocId>, b: Set<DocId>) -> bool {
    (EARLY_STOP_JACCARD_DEN as int) * a.intersect(b).len() >= (EARLY_STOP_JACCARD_NUM as int)
        * a.union(b).len()
}

/// Whether the summed top-K score moved by at most the relative
/// early-stop threshold. Scores are fixed-point integers, so the reference
/// epsilon clamp of the denominator reduces to the zero case: a zero
/// previous sum tolerates only a zero current sum.
pub open spec fn score_delta_small(prev_sum: int, curr_sum: int) -> bool {
    if prev_sum == 0 {
        curr_sum == 0
    } else {
        (EARLY_STOP_SCORE_DEN as int) * abs_int(curr_sum - prev_sum) <= (EARLY_STOP_SCORE_NUM
            as int) * abs_int(prev_sum)
    }
}

/// Magnitude of an integer.
pub open spec fn abs_int(x: int) -> int {
    if x >= 0 {
        x
    } else {
        -x
    }
}

/// One rerank round is stable relative to the previous one when the top-K
/// identifier sets reach the Jaccard threshold and the summed top-K score
/// moved by at most the relative threshold.
pub open spec fn round_stable(
    prev_ids: Set<DocId>,
    curr_ids: Set<DocId>,
    prev_sum: int,
    curr_sum: int,
) -> bool {
    jaccard_at_least_threshold(prev_ids, curr_ids) && score_delta_small(prev_sum, curr_sum)
}

/// Whether `v` holds `id` at some position.
fn contains_id(v: &Vec<DocId>, id: DocId) -> (r: bool)
    ensures
        r == v@.contains(id),
{
    let n = v.len();
    for i in 0..n
        invariant
            n == v@.len(),
            forall|k: int| 0 <= k < i as int ==> v@[k] != id,
    {
        if *v.get(i).unwrap() == id {
            return true;
        }
    }
    false
}

/// Exact overlap counts of two duplicate-free identifier lists: the size
/// of the intersection and the size of the union of their sets.
pub fn jaccard_counts(left: &Vec<DocId>, right: &Vec<DocId>) -> (r: (usize, u128))
    requires
        left@.no_duplicates(),
        right@.no_duplicates(),
    ensures
        r.0 == left@.to_set().intersect(right@.to_set()).len(),
        r.1 == left@.to_set().union(right@.to_set()).len(),
        r.1 <= left@.len() + right@.len(),
        r.1 <= 0x2_0000_0000_0000_0000u128,
        r.0 <= 0x1_0000_0000_0000_0000u128,
{
    broadcast use vstd::seq_lib::seq_to_set_is_finite;
    broadcast use vstd::set::group_set_axioms;
    

    let ghost ls = left@.to_set();
    let ghost rs = right@.to_set();
    let nl = left.len();
    let nr = right.len();
    proof {
        left@.unique_seq_to_set();
        right@.unique_seq_to_set();
        vstd::set_lib::lemma_len_union(ls, rs);
        assert(left@.take(0).to_set() =~= Set::<DocId>::empty());
        assert(Set::<DocId>::empty().intersect(rs) =~= Set::<DocId>::empty());
    }
    let mut inter: usize = 0;
    for i in 0..nl
        invariant
            nl == left@.len(),
            ls == left@.to_set(),
            rs == right@.to_set(),
            left@.no_duplicates(),
            right@.no_duplicates(),
            inter as int == left@.take(i as int).to_set().intersect(rs).len(),
            inter <= i,
    {
        let ghost pre = left@.take(i as int).to_set();
        proof {
            assert(left@.take(i as int + 1) =~= left@.take(i as int).push(left@[i as int]));
            left@.take(i as int).lemma_push_to_set_commute(left@[i as int]);
            assert(left@.take(i as int).push(left@[i as int]).to_set() =~= pre.insert(
                left@[i as int],
            ));
            assert(!pre.contains(left@[i as int])) by {
                if pre.contains(left@[i as int]) {
                    let k = choose|k: int|
                        0 <= k < i as int && #[trigger] left@.take(i as int)[k] == left@[i as int];
                }
            }
            left@.take(i as int).lemma_cardinality_of_set();
        }
        if contains_id(right, *left.get(i).unwrap()) {
            proof {
                assert(rs.contains(left@[i as int])) by {
                    let k = choose|k: int|
                        0 <= k < right@.len() && #[trigger] right@[k] == left@[i as int];
                }
                assert(pre.insert(left@[i as int]).intersect(rs) =~= pre.intersect(rs).insert(
                    left@[i as int],
                ));
                assert(!pre.intersect(rs).contains(left@[i as int]));
            }
            inter = inter + 1;
        } else {
            proof {
                assert(!rs.contains(left@[i as int])) by {
                    if rs.contains(left@[i as int]) {
                        let k = choose|k: int|
                            0 <= k < right@.len() && #[trigger] right@[k] == left@[i as int];
                        assert(right@.contains(left@[i as int]));
                    }
                }
                assert(pre.insert(left@[i as int]).intersect(rs) =~= pre.intersect(rs));
            }
        }
    }
    proof {
        assert(left@.take(nl as int) =~= left@);
        assert(right@.take(0).to_set() =~= Set::<DocId>::empty());
        assert(ls.union(Set::<DocId>::empty()) =~= ls);
    }
    let mut extra: usize = 0;
    for j in 0..nr
        invariant
            nl == left@.len(),
            nr == right@.len(),
            ls == left@.to_set(),
            rs == right@.to_set(),
            left@.no_duplicates(),
            right@.no_duplicates(),
            extra <= j,
            nl as int + extra as int == ls.union(right@.take(j as int).to_set()).len(),
    {
        let ghost pre = right@.take(j as int).to_set();
        proof {
            assert(right@.take(j as int + 1) =~= right@.take(j as int).push(right@[j as int]));
            right@.take(j as int).lemma_push_to_set_commute(right@[j as int]);
            assert(ls.union(pre.insert(right@[j as int])) =~= ls.union(pre).insert(
                right@[j as int],
            ));
            assert(!pre.contains(right@[j as int])) by {
                if pre.contains(right@[j as int]) {
                    let k = choose|k: int|
                        0 <= k < j as int && #[trigger] right@.take(j as int)[k] == right@[j
                            as int];
                }
            }
        }
        if contains_id(left, *right.get(j).unwrap()) {
            proof {
                assert(ls.contains(right@[j as int])) by {
                    let k = choose|k: int|
                        0 <= k < left@.len() && #[trigger] left@[k] == right@[j as int];
                }
                assert(ls.union(pre).insert(right@[j as int]) =~= ls.union(pre));
            }
        } else {
            proof {
                assert(!ls.contains(right@[j as int])) by {
                    if ls.contains(right@[j as int]) {
                        let k = choose|k: int|
                            0 <= k < left@.len() && #[trigger] left@[k] == right@[j as int];
                        assert(left@.contains(right@[j as int]));
                    }
                }
                assert(!ls.union(pre).contains(right@[j as int]));
            }
            extra = extra + 1;
        }
    }
    proof {
        assert(right@.take(nr as int) =~= right@);
    }
    let uni: u128 = (nl as u128) + (extra as u128);
    (inter, uni)
}

/// The exact Jaccard similarity of two finite identifier sets, as the
/// fraction numerator/denominator: intersection size over union size, with
/// the similarity of two empty sets defined as 1.
pub open spec fn jaccard_fraction(a: Set<DocId>, b: Set<DocId>) -> (int, int) {
    if a.union(b).len() == 0 {
        (1int, 1int)
    } else {
        (a.intersect(b).len() as int, a.union(b).len() as int)
    }
}

/// Jaccard of two identical non-empty sets is exactly 1.
pub proof fn lemma_jaccard_identical(a: Set<DocId>)
    requires
        a.finite(),
        a.len() > 0,
    ensures
        jaccard_fraction(a, a).0 == jaccard_fraction(a, a).1,
        jaccard_fraction(a, a).1 > 0,
{
    broadcast use vstd::set::group_set_axioms;

    assert(a.union(a) =~= a);
    assert(a.intersect(a) =~= a);
}

/// Jaccard of two disjoint non-empty sets is exactly 0.
pub proof fn lemma_jaccard_disjoint(a: Set<DocId>, b: Set<DocId>)
    requires
        a.finite(),
        b.finite(),
        a.len() > 0,
        b.len() > 0,
        a.intersect(b) =~= Set::<DocId>::empty(),
    ensures
        jaccard_fraction(a, b).0 == 0,
        jaccard_fraction(a, b).1 > 0,
{
    broadcast use vstd::set::group_set_axioms;

    vstd::set_lib::lemma_len_subset(a, a.union(b));
    if a.union(b).len() == 0 {
        assert(a.len() == 0);
    }
}

/// Jaccard of two empty sets is 1 by definition.
pub proof fn lemma_jaccard_empty()
    ensures
        jaccard_fraction(Set::<DocId>::empty(), Set::<DocId>::empty()).0 == 1,
        jaccard_fraction(Set::<DocId>::empty(), Set::<DocId>::empty()).1 == 1,
{
    broadcast use vstd::set::group_set_axioms;

    let e = Set::<DocId>::empty();
    assert(e.union(e) =~= e);
}

/// Decides `round_stable` for two duplicate-free top-K identifier lists and
/// their exact summed scores.
pub fn check_stability(
    prev_ids: &Vec<DocId>,
    curr_ids: &Vec<DocId>,
    prev_sum: i128,
    curr_sum: i128,
) -> (r: bool)
    requires
        prev_ids@.no_duplicates(),
        curr_ids@.no_duplicates(),
    ensures
        r == round_stable(
            prev_ids@.to_set(),
            curr_ids@.to_set(),
            prev_sum as int,
            curr_sum as int,
        ),
{
    let counts = jaccard_counts(prev_ids, curr_ids);
    let inter = counts.0;
    let uni = counts.1;
    proof {
        assert((EARLY_STOP_JACCARD_DEN as int) * (inter as int) <= 100int
            * 0x1_0000_0000_0000_0000int) by (nonlinear_arith)
            requires
                0 <= inter as int <= 0x1_0000_0000_0000_0000int,
                EARLY_STOP_JACCARD_DEN == 100u64,
        ;
        assert((EARLY_STOP_JACCARD_NUM as int) * (uni as int) <= 95int
            * 0x2_0000_0000_0000_0000int) by (nonlinear_arith)
            requires
                0 <= uni as int <= 0x2_0000_0000_0000_0000int,
                EARLY_STOP_JACCARD_NUM == 95u64,
        ;
    }
    let jac_ok = (EARLY_STOP_JACCARD_DEN as u128) * (inter as u128) >= (EARLY_STOP_JACCARD_NUM
        as u128) * uni;
    let pmag: u128 = if prev_sum < 0 {
        ((-(prev_sum + 1)) as u128) + 1
    } else {
        prev_sum as u128
    };
    let cmag: u128 = if curr_sum < 0 {
        ((-(curr_sum + 1)) as u128) + 1
    } else {
        curr_sum as u128
    };
    proof {
        assert(pmag as int == abs_int(prev_sum as int));
        assert(cmag as int == abs_int(curr_sum as int));
    }
    let d: u128 = if (prev_sum < 0) == (curr_sum < 0) {
        if pmag >= cmag {
            pmag - cmag
        } else {
            cmag - pmag
        }
    } else {
        pmag + cmag
    };
    proof {
        assert(d as int == abs_int(curr_sum as int - prev_sum as int));
    }
    let delta_ok = if prev_sum == 0 {
        curr_sum == 0
    } else {
        let quot = pmag / ((EARLY_STOP_SCORE_DEN / EARLY_STOP_SCORE_NUM) as u128);
        proof {
            lemma_ratio_by_division(d as int, pmag as int);
        }
        d <= quot
    };
    jac_ok && delta_ok
}

/// Comparing against the divided threshold is the same as the cross
/// product comparison: `d <= p / 200` exactly when `1000·d <= 5·p`.
proof fn lemma_ratio_by_division(d: int, p: int)
    requires
        d >= 0,
        p >= 0,
    ensures
        (d <= p / 200) <==> ((EARLY_STOP_SCORE_DEN as int) * d <= (EARLY_STOP_SCORE_NUM as int)
            * p),
{
    if d <= p / 200 {
        vstd::arithmetic::div_mod::lemma_fundamental_div_mod(p, 200);
        vstd::arithmetic::mul::lemma_mul_inequality(d, p / 200, 200);
        assert((p / 200) * 200 <= p) by (nonlinear_arith)
            requires
                p == 200 * (p / 200) + p % 200,
                p % 200 >= 0,
        ;
        assert(1000 * d == 5 * (d * 200)) by (nonlinear_arith);
        assert(5 * (d * 200) <= 5 * ((p / 200) * 200)) by (nonlinear_arith)
            requires
                d * 200 <= (p / 200) * 200,
        ;
        assert(5 * ((p / 200) * 200) <= 5 * p) by (nonlinear_arith)
            requires
                (p / 200) * 200 <= p,
        ;
    }
    if (EARLY_STOP_SCORE_DEN as int) * d <= (EARLY_STOP_SCORE_NUM as int) * p {
        assert(200 * d <= p) by (nonlinear_arith)
            requires
                1000 * d <= 5 * p,
        ;
        vstd::arithmetic::div_mod::lemma_div_multiples_vanish(d, 200);
        vstd::arithmetic::div_mod::lemma_div_is_ordered(200 * d, p, 200);
        assert(200 * d == d * 200) by (nonlinear_arith);
    }
}

/// The PRF-blended coordinate: the original query weighted by the alpha
/// fraction plus the centroid weighted by the rest, rounded toward zero.
pub open spec fn blend_val(q: int, c: int) -> int {
    fetch::tz_div(
        (query::PRF_ALPHA_NUM as int) * q + ((query::PRF_ALPHA_DEN - query::PRF_ALPHA_NUM) as int)
            * c,
        query::PRF_ALPHA_DEN as int,
    )
}

/// Blends the original query with the survivor centroid, coordinate by
/// coordinate, at the fixed PRF weight.
pub fn blend_queries(original: &Vec<i64>, center: &Vec<i64>) -> (r: Vec<i64>)
    requires
        original@.len() == center@.len(),
        forall|i: int|
            0 <= i < original@.len() ==> -FIXED_ONE <= #[trigger] original@[i] <= FIXED_ONE,
        forall|i: int| 0 <= i < center@.len() ==> -FIXED_ONE <= #[trigger] center@[i] <= FIXED_ONE,
    ensures
        r@.len() == original@.len(),
        forall|i: int|
            0 <= i < r@.len() ==> #[trigger] r@[i] == blend_val(
                original@[i] as int,
                center@[i] as int,
            ),
        forall|i: int| 0 <= i < r@.len() ==> -FIXED_ONE <= #[trigger] r@[i] <= FIXED_ONE,
{
    let mut blended: Vec<i64> = Vec::new();
    let n = original.len();
    for i in 0..n
        invariant
            n == original@.len(),
            original@.len() == center@.len(),
            forall|k: int|
                0 <= k < original@.len() ==> -FIXED_ONE <= #[trigger] original@[k] <= FIXED_ONE,
            forall|k: int|
                0 <= k < center@.len() ==> -FIXED_ONE <= #[trigger] center@[k] <= FIXED_ONE,
            blended@.len() == i,
            forall|k: int|
                0 <= k < i as int ==> #[trigger] blended@[k] == blend_val(
                    original@[k] as int,
                    center@[k] as int,
                ),
            forall|k: int| 0 <= k < i as int ==> -FIXED_ONE <= #[trigger] blended@[k] <= FIXED_ONE,
    {
        let q = *original.get(i).unwrap();
        let c = *center.get(i).unwrap();
        proof {
            assert(-7_000_000int <= (query::PRF_ALPHA_NUM as int) * (q as int) <= 7_000_000int)
                by (nonlinear_arith)
                requires
                    -1_000_000 <= q as int <= 1_000_000,
                    query::PRF_ALPHA_NUM == 7i64,
            ;
            assert(-3_000_000int <= ((query::PRF_ALPHA_DEN - query::PRF_ALPHA_NUM) as int) * (
            c as int) <= 3_000_000int) by (nonlinear_arith)
                requires
                    -1_000_000 <= c as int <= 1_000_000,
                    query::PRF_ALPHA_DEN == 10i64,
                    query::PRF_ALPHA_NUM == 7i64,
            ;
        }
        let num: i64 = query::PRF_ALPHA_NUM * q + (query::PRF_ALPHA_DEN - query::PRF_ALPHA_NUM)
            * c;
        let neg = num < 0;
        let mag: u64 = if neg {
            (-num) as u64
        } else {
            num as u64
        };
        let quot: u64 = mag / (query::PRF_ALPHA_DEN as u64);
        proof {
            vstd::arithmetic::div_mod::lemma_div_is_ordered(
                mag as int,
                10 * (FIXED_ONE as int),
                10,
            );
            vstd::arithmetic::div_mod::lemma_div_multiples_vanish(FIXED_ONE as int, 10);
            vstd::arithmetic::div_mod::lemma_div_pos_is_pos(mag as int, 10);
        }
        let val: i64 = if neg {
            -(quot as i64)
        } else {
            quot as i64
        };
        blended.push(val);
    }
    blended
}

/// Reconstructs the corrected PRF query: fetches the survivor embeddings,
/// takes their centroid, blends it with the original normalized query at
/// the fixed alpha weight, and re-normalizes. Fails on an empty survivor
/// list, a failed fetch (the backend message is kept verbatim), a survivor
/// vector of the wrong dimension, or a blended vector that cancels to zero.
pub fn build_prf_query<A: VdbAdapter>(
    original_query: &Vec<i64>,
    survivors: &Vec<DocId>,
    adapter: &A,
) -> (r: Result<Vec<i64>, EngineError>)
    requires
        forall|i: int|
            0 <= i < original_query@.len() ==> -FIXED_ONE <= #[trigger] original_query@[i]
                <= FIXED_ONE,
    ensures
        survivors@.len() == 0 <==> r == Err::<Vec<i64>, EngineError>(
            EngineError::EmptySurvivorSet,
        ),
        r matches Err(e) ==> (e is EmptySurvivorSet || e is Backend || e is DimensionMismatch
            || e is DegenerateVector),
        r matches Ok(q2) ==> {
            &&& q2@.len() == original_query@.len()
            &&& forall|i: int| 0 <= i < q2@.len() ==> -FIXED_ONE <= #[trigger] q2@[i] <= FIXED_ONE
        },
{
    if survivors.len() == 0 {
        return Err(EngineError::EmptySurvivorSet);
    }
    let survivor_vectors: Vec<DocVector> = match fetch::fetch_vectors(adapter, survivors) {
        Ok(vs) => vs,
        Err(msg) => {
            return Err(EngineError::Backend(msg));
        },
    };
    let center = match fetch::centroid(&survivor_vectors, original_query.len()) {
        Ok(c) => c,
        Err(e) => {
            return Err(e);
        },
    };
    let blended = blend_queries(original_query, &center);
    match normalize::normalized_copy(&blended) {
        Some(prf) => Ok(prf),
        None => Err(EngineError::DegenerateVector),
    }
}

/// Whether some hit in `s` belongs to document `id`.
pub open spec fn id_in(s: Seq<ScoredDoc>, id: DocId) -> bool {
    exists|k: int| 0 <= k < s.len() && (#[trigger] s[k]).0 == id
}

/// Sum of the scores of a hit list.
pub open spec fn score_sum(s: Seq<ScoredDoc>) -> int
    decreases s.len(),
{
    if s.len() == 0 {
        0
    } else {
        score_sum(s.drop_last()) + s.last().1
    }
}

/// `v` is the ranked top-`k` slice of the rank map `m`: one hit per
/// stored document with its stored score, best-first under the
/// deterministic ranking order, of length `min(k, |m|)`, and every stored
/// document left out ranks at or below every kept hit. Together with the
/// totality of the ranking order these clauses determine `v` uniquely
/// from `m` and `k`.
pub open spec fn is_ranked_slice(v: Seq<ScoredDoc>, m: Map<DocId, i64>, k: int) -> bool {
    &&& sorted_by(v, scored_order())
    &&& forall|i: int, j: int| 0 <= i < j < v.len() ==> (#[trigger] v[i]).0 != (#[trigger] v[j]).0
    &&& forall|i: int|
        0 <= i < v.len() ==> m.dom().contains((#[trigger] v[i]).0) && m[v[i].0] == v[i].1
    &&& v.len() == if m.dom().len() <= k {
        m.dom().len() as int
    } else {
        k
    }
    &&& forall|id: DocId|
        m.dom().contains(id) && !id_in(v, id) ==> forall|i: int|
            0 <= i < v.len() ==> scored_leq(#[trigger] v[i], (id, m[id]))
}

/// The rank map after absorbing one list of hits: each hit's document ends
/// with the maximum of its stored score and the hit's score, and documents
/// not yet stored are inserted — a stored score never regresses.
pub open spec fn merged_with(m: Map<DocId, i64>, hits: Seq<ScoredDoc>) -> Map<DocId, i64>
    decreases hits.len(),
{
    if hits.len() == 0 {
        m
    } else {
        let m1 = merged_with(m, hits.drop_last());
        let h = hits.last();
        if m1.dom().contains(h.0) && m1[h.0] >= h.1 {
            m1
        } else {
            m1.insert(h.0, h.1)
        }
    }
}

/// The rank map after absorbing every round's hits in order, starting from
/// the empty map.
pub open spec fn merged_rounds(rounds: Seq<Seq<ScoredDoc>>) -> Map<DocId, i64>
    decreases rounds.len(),
{
    if rounds.len() == 0 {
        Map::empty()
    } else {
        merged_with(merged_rounds(rounds.drop_last()), rounds.last())
    }
}

/// Every list in `rounds` is ordered best-first (scores non-increasing),
/// as the retrieval port promises of each search answer.
pub open spec fn rounds_wf(rounds: Seq<Seq<ScoredDoc>>) -> bool {
    forall|s: int, i: int, j: int|
        #![trigger rounds[s][i], rounds[s][j]]
        0 <= s < rounds.len() && 0 <= i <= j < rounds[s].len() ==> rounds[s][i].1 >= rounds[s][j].1
}

/// Every round's hit list fits the limit that round requested: the base
/// limit — the larger of `k` and `SEGMENT_TOP_K` — times the 1-indexed
/// round number.
pub open spec fn rounds_bounded(rounds: Seq<Seq<ScoredDoc>>, k: int) -> bool {
    forall|s: int|
        0 <= s < rounds.len() ==> (#[trigger] rounds[s]).len() <= (if k > query::SEGMENT_TOP_K
            as int {
            k
        } else {
            query::SEGMENT_TOP_K as int
        }) * (s + 1)
}

/// Some admissible sequence of rerank rounds explains `v`: between one and
/// the round-cap many best-first hit lists, each within its round's
/// expanding limit, such that `v` is exactly the ranked top-`k` slice of
/// their fold under `merged_with`.
pub open spec fn ranked_from_rounds(v: Seq<ScoredDoc>, k: int) -> bool {
    exists|rounds: Seq<Seq<ScoredDoc>>|
        #![trigger merged_rounds(rounds)]
        {
            &&& 1 <= rounds.len() <= query::MAX_REFINEMENT_ROUNDS as int
            &&& rounds_wf(rounds)
            &&& rounds_bounded(rounds, k)
            &&& is_ranked_slice(v, merged_rounds(rounds), k)
        }
}

/// What the merge means per document: a document is stored after absorbing
/// `hits` exactly when it was stored before or some hit names it, and its
/// stored score is the maximum of its previous score (if any) and the best
/// score the hits give it — never less than either.
pub proof fn lemma_merged_with_max(m: Map<DocId, i64>, hits: Seq<ScoredDoc>, id: DocId)
    ensures
        merged_with(m, hits).dom().contains(id) <==> (m.dom().contains(id) || voting::seg_has(
            hits,
            id,
        )),
        m.dom().contains(id) ==> merged_with(m, hits)[id] == if voting::seg_best(hits, id) > m[id] {
            voting::seg_best(hits, id) as i64
        } else {
            m[id]
        },
        !m.dom().contains(id) && voting::seg_has(hits, id) ==> merged_with(m, hits)[id]
            == voting::seg_best(hits, id) as i64,
    decreases hits.len(),
{
    voting::lemma_seg_ranges(hits, id);
    if hits.len() == 0 {
        if voting::seg_has(hits, id) {
            let k = choose|k: int| 0 <= k < hits.len() && #[trigger] hits[k].0 == id;
        }
    } else {
        let rest = hits.drop_last();
        let h = hits.last();
        lemma_merged_with_max(m, rest, id);
        voting::lemma_seg_ranges(rest, id);
        if !voting::seg_has(rest, id) {
            if voting::seg_votes(rest, id) >= 1 {
                voting::lemma_seg_votes_pos_converse(rest, id);
            }
        }
        assert(voting::seg_has(hits, id) <==> (voting::seg_has(rest, id) || h.0 == id)) by {
            if voting::seg_has(rest, id) {
                let k = choose|k: int| 0 <= k < rest.len() && #[trigger] rest[k].0 == id;
                assert(hits[k].0 == id);
            }
            if h.0 == id {
                assert(hits[hits.len() - 1].0 == id);
            }
            if voting::seg_has(hits, id) && !(h.0 == id) {
                let k = choose|k: int| 0 <= k < hits.len() && #[trigger] hits[k].0 == id;
                assert(rest[k].0 == id);
            }
        }
    }
}

/// Absorbing hits keeps the rank map finite.
pub proof fn lemma_merged_with_finite(m: Map<DocId, i64>, hits: Seq<ScoredDoc>)
    requires
        m.dom().finite(),
    ensures
        merged_with(m, hits).dom().finite(),
    decreases hits.len(),
{
    if hits.len() > 0 {
        lemma_merged_with_finite(m, hits.drop_last());
        let m1 = merged_with(m, hits.drop_last());
        let h = hits.last();
        if !(m1.dom().contains(h.0) && m1[h.0] >= h.1) {
            assert(m1.insert(h.0, h.1).dom() =~= m1.dom().insert(h.0));
        }
    }
}

/// A reordering keeps lengths, membership, and pairwise-distinct ids.
proof fn lemma_perm_distinct_ids(pre: Seq<ScoredDoc>, post: Seq<ScoredDoc>)
    requires
        post.to_multiset() == pre.to_multiset(),
        forall|i: int, j: int| 0 <= i < j < pre.len() ==> (#[trigger] pre[i]).0 != (#[trigger] pre[j]).0,
    ensures
        post.len() == pre.len(),
        forall|x: ScoredDoc| post.contains(x) ==> pre.contains(x),
        forall|i: int, j: int|
            0 <= i < j < post.len() ==> (#[trigger] post[i]).0 != (#[trigger] post[j]).0,
{
    broadcast use vstd::seq_lib::group_to_multiset_ensures;

    assert(post.len() == post.to_multiset().len());
    assert(pre.len() == pre.to_multiset().len());
    assert(pre.no_duplicates()) by {
        assert forall|i: int, j: int| 0 <= i < j < pre.len() implies pre[i] != pre[j] by {
            assert(pre[i].0 != pre[j].0);
        }
    }
    pre.lemma_multiset_has_no_duplicates();
    assert forall|x: ScoredDoc| post.contains(x) implies pre.contains(x) by {
        assert(post.to_multiset().count(x) > 0);
    }
    assert forall|i: int, j: int|
        0 <= i < j < post.len() implies (#[trigger] post[i]).0 != (#[trigger] post[j]).0 by {
        if post[i] == post[j] {
            post.lemma_multiset_has_no_duplicates_conv();
        } else {
            assert(post.contains(post[i]));
            assert(post.contains(post[j]));
            assert(pre.contains(post[i]));
            assert(pre.contains(post[j]));
            let a = choose|a: int| 0 <= a < pre.len() && pre[a] == post[i];
            let b = choose|b: int| 0 <= b < pre.len() && pre[b] == post[j];
            if post[i].0 == post[j].0 {
                assert(a != b);
            }
        }
    }
}

/// The ranked top-K slice of the merged rank map: one hit per stored
/// document with its stored score, sorted under the deterministic ranking
/// order, truncated to the `top_k` best. Any stored document that is left
/// out ranks at or below every kept hit.
pub(crate) fn top_k_from_merged(merged: &maps::RankMap, top_k: usize) -> (r: Vec<ScoredDoc>)
    requires
        maps::rank_map_view(*merged).dom().finite(),
    ensures
        is_ranked_slice(r@, maps::rank_map_view(*merged), top_k as int),
{
    let ghost view = maps::rank_map_view(*merged);
    let mut pairs = maps::rank_map_to_vec(merged);
    let ghost pre = pairs@;
    topk::sort_desc_take(&mut pairs, top_k);
    proof {
        topk::lemma_scored_order_total();
        pre.lemma_sort_by_ensures(scored_order());
        let full = pre.sort_by(scored_order());
        lemma_perm_distinct_ids(pre, full);
        let m = if pre.len() <= top_k as int {
            pre.len() as int
        } else {
            top_k as int
        };
        assert(pairs@ == full.take(m));
        assert(pairs@.len() == m);
        assert forall|i: int|
            0 <= i < pairs@.len() implies view.dom().contains((#[trigger] pairs@[i]).0)
            && view[pairs@[i].0] == pairs@[i].1 by {
            assert(pairs@[i] == full[i]);
            assert(full.contains(full[i]));
            assert(pre.contains(full[i]));
            let a = choose|a: int| 0 <= a < pre.len() && pre[a] == full[i];
        }
        assert forall|id: DocId| view.dom().contains(id) && !id_in(pairs@, id) implies forall|
            i: int,
        |
            0 <= i < pairs@.len() ==> scored_leq(#[trigger] pairs@[i], (id, view[id])) by {
            let k0 = choose|k0: int| 0 <= k0 < pre.len() && (#[trigger] pre[k0]).0 == id;
            let x = pre[k0];
            assert(x == (id, view[id]));
            assert(pre.contains(x));
            assert(pre.to_multiset().count(x) > 0) by {
                broadcast use vstd::seq_lib::group_to_multiset_ensures;

            }
            assert(full.contains(x)) by {
                broadcast use vstd::seq_lib::group_to_multiset_ensures;

            }
            let kf = choose|kf: int| 0 <= kf < full.len() && full[kf] == x;
            assert(kf >= m) by {
                if kf < m {
                    assert(pairs@[kf] == full[kf]);
                    assert(id_in(pairs@, id));
                }
            }
            assert forall|i: int| 0 <= i < pairs@.len() implies scored_leq(
                #[trigger] pairs@[i],
                (id, view[id]),
            ) by {
                assert(scored_order()(full[i], full[kf]));
                assert(pairs@[i] == full[i]);
            }
        }
    }
    pairs
}

/// Document identifiers of a hit list, in order.
fn ids_of(hits: &Vec<ScoredDoc>) -> (r: Vec<DocId>)
    ensures
        r@.len() == hits@.len(),
        forall|i: int| 0 <= i < r@.len() ==> #[trigger] r@[i] == hits@[i].0,
{
    let mut out: Vec<DocId> = Vec::new();
    let n = hits.len();
    for i in 0..n
        invariant
            n == hits@.len(),
            out@.len() == i,
            forall|k: int| 0 <= k < i as int ==> #[trigger] out@[k] == hits@[k].0,
    {
        out.push(hits.get(i).unwrap().0);
    }
    out
}

/// Exact sum of the scores of a hit list.
fn sum_scores(hits: &Vec<ScoredDoc>) -> (r: i128)
    ensures
        r == score_sum(hits@),
{
    let mut acc: i128 = 0;
    let n = hits.len();
    proof {
        assert(hits@.take(0) =~= Seq::<ScoredDoc>::empty());
    }
    for i in 0..n
        invariant
            n == hits@.len(),
            acc == score_sum(hits@.take(i as int)),
            -((i as int) * 0x8000_0000_0000_0000int) <= acc as int <= (i as int)
                * 0x8000_0000_0000_0000int,
    {
        let sc = hits.get(i).unwrap().1;
        proof {
            let t = hits@.take(i as int + 1);
            assert(t.drop_last() =~= hits@.take(i as int));
            assert(t.last() == hits@[i as int]);
            assert((i as int) * 0x8000_0000_0000_0000int + 0x8000_0000_0000_0000int == (i as int
                + 1) * 0x8000_0000_0000_0000int) by (nonlinear_arith);
            assert((i as int + 1) * 0x8000_0000_0000_0000int <= 0xffff_ffff_ffff_ffffu64 as int
                * 0x8000_0000_0000_0000int) by (nonlinear_arith)
                requires
                    0 <= i as int + 1 <= 0xffff_ffff_ffff_ffffu64 as int,
            ;
        }
        acc = acc + (sc as i128);
    }
    proof {
        assert(hits@.take(n as int) =~= hits@);
    }
    acc
}

/// Absorbs one round of hits into the merged rank map: per document the
/// stored score never regresses, a better score replaces it, and documents
/// not yet stored are inserted.
fn merge_round(merged: &mut maps::RankMap, round_hits: &Vec<ScoredDoc>)
    requires
        maps::rank_map_view(*old(merged)).dom().finite(),
    ensures
        maps::rank_map_view(*final(merged)) == merged_with(
            maps::rank_map_view(*old(merged)),
            round_hits@,
        ),
        maps::rank_map_view(*final(merged)).dom().finite(),
{
    let ghost v_in = maps::rank_map_view(*merged);
    proof {
        assert(round_hits@.take(0) =~= Seq::<ScoredDoc>::empty());
    }
    let nh = round_hits.len();
    for h in 0..nh
        invariant
            nh == round_hits@.len(),
            maps::rank_map_view(*merged) == merged_with(v_in, round_hits@.take(h as int)),
            maps::rank_map_view(*merged).dom().finite(),
    {
        let hit = *round_hits.get(h).unwrap();
        let ghost v0 = maps::rank_map_view(*merged);
        let stored = maps::rank_map_get(merged, hit.0);
        match stored {
            Some(s0) => {
                if hit.1 > s0 {
                    maps::rank_map_insert(merged, hit.0, hit.1);
                }
            },
            None => {
                maps::rank_map_insert(merged, hit.0, hit.1);
            },
        }
        proof {
            let t = round_hits@.take(h as int + 1);
            assert(t.drop_last() =~= round_hits@.take(h as int));
            assert(t.last() == round_hits@[h as int]);
            let v1 = maps::rank_map_view(*merged);
            if v1 != v0 {
                assert(v1.dom() =~= v0.dom().insert(hit.0));
            }
            assert(v1 == merged_with(v_in, t));
        }
    }
    proof {
        assert(round_hits@.take(nh as int) =~= round_hits@);
    }
}

/// Runs expanding-limit search rounds against the PRF query, merging each
/// round's hits into the rank map by keeping each document's best score,
/// until the backend is exhausted, the top-K stabilizes for two qualifying
/// rounds, or the round budget runs out. Returns the ranked top-K slice.
pub fn rerank_until_top_k<A: VdbAdapter>(
    adapter: &A,
    prf_query: &Vec<i64>,
    top_k: usize,
) -> (r: Result<Vec<ScoredDoc>, EngineError>)
    requires
        prf_query@.len() == adapter.spec_dim(),
        forall|i: int|
            0 <= i < prf_query@.len() ==> -FIXED_ONE <= #[trigger] prf_query@[i] <= FIXED_ONE,
    ensures
        top_k == 0 ==> (r matches Ok(v) && v@.len() == 0),
        r matches Err(e) ==> e is Backend,
        r matches Ok(v) ==> {
            &&& v@.len() <= top_k
            &&& sorted_by(v@, scored_order())
            &&& forall|i: int, j: int|
                0 <= i < j < v@.len() ==> (#[trigger] v@[i]).0 != (#[trigger] v@[j]).0
        },
        top_k >= 1 ==> (r matches Ok(v) ==> ranked_from_rounds(v@, top_k as int)),
{
    if top_k == 0 {
        return Ok(Vec::new());
    }
    let base_limit = if top_k > query::SEGMENT_TOP_K {
        top_k
    } else {
        query::SEGMENT_TOP_K
    };
    let mut merged = maps::rank_map_new();
    let ghost mut rounds: Seq<Seq<ScoredDoc>> = Seq::empty();
    let mut prev: Option<(Vec<DocId>, i128)> = None;
    let mut stable_rounds: usize = 0;
    let mut round: usize = 1;
    while round <= query::MAX_REFINEMENT_ROUNDS
        invariant_except_break
            rounds.len() == round - 1,
        invariant
            top_k >= 1,
            1 <= round <= query::MAX_REFINEMENT_ROUNDS + 1,
            stable_rounds <= query::MAX_REFINEMENT_ROUNDS,
            maps::rank_map_view(merged).dom().finite(),
            maps::rank_map_view(merged) == merged_rounds(rounds),
            rounds_wf(rounds),
            rounds_bounded(rounds, top_k as int),
            base_limit == if top_k > query::SEGMENT_TOP_K {
                top_k
            } else {
                query::SEGMENT_TOP_K
            },
            prf_query@.len() == adapter.spec_dim(),
            forall|i: int|
                0 <= i < prf_query@.len() ==> -FIXED_ONE <= #[trigger] prf_query@[i] <= FIXED_ONE,
            prev matches Some(pv) ==> pv.0@.no_duplicates(),
        ensures
            maps::rank_map_view(merged).dom().finite(),
            maps::rank_map_view(merged) == merged_rounds(rounds),
            1 <= rounds.len() <= query::MAX_REFINEMENT_ROUNDS,
            rounds_wf(rounds),
            rounds_bounded(rounds, top_k as int),
        decreases query::MAX_REFINEMENT_ROUNDS + 1 - round,
    {
        let ghost base_spec: int = if top_k as int > query::SEGMENT_TOP_K as int {
            top_k as int
        } else {
            query::SEGMENT_TOP_K as int
        };
        let limit: usize = if base_limit > usize::MAX / round {
            proof {
                vstd::arithmetic::div_mod::lemma_fundamental_div_mod(usize::MAX as int, round as int);
                assert(base_spec * (round as int) > usize::MAX as int) by (nonlinear_arith)
                    requires
                        base_spec >= (usize::MAX as int / round as int) + 1,
                        round as int >= 1,
                        usize::MAX as int == round as int * (usize::MAX as int / round as int) + (
                        usize::MAX as int % round as int),
                        0 <= (usize::MAX as int % round as int) < round as int,
                ;
            }
            usize::MAX
        } else {
            proof {
                vstd::arithmetic::div_mod::lemma_fundamental_div_mod(usize::MAX as int, round as int);
                assert(base_limit as int * round as int <= (usize::MAX as int / round as int)
                    * round as int) by (nonlinear_arith)
                    requires
                        0 <= base_limit as int <= usize::MAX as int / round as int,
                        round as int >= 1,
                ;
                assert((usize::MAX as int / round as int) * round as int <= usize::MAX as int)
                    by (nonlinear_arith)
                    requires
                        usize::MAX as int == round as int * (usize::MAX as int / round as int) + (
                        usize::MAX as int % round as int),
                        usize::MAX as int % round as int >= 0,
                ;
            }
            base_limit * round
        };
        let round_hits: Vec<ScoredDoc> = match adapter.search(prf_query, limit) {
            Ok(h) => h,
            Err(msg) => {
                return Err(EngineError::Backend(msg));
            },
        };
        let round_hit_count = round_hits.len();
        merge_round(&mut merged, &round_hits);
        proof {
            let r2 = rounds.push(round_hits@);
            assert(r2.drop_last() =~= rounds);
            assert(r2.last() == round_hits@);
            assert(rounds_wf(r2)) by {
                assert forall|s: int, i: int, j: int|
                    #![trigger r2[s][i], r2[s][j]]
                    0 <= s < r2.len() && 0 <= i <= j < r2[s].len() implies r2[s][i].1
                    >= r2[s][j].1 by {
                    if s < rounds.len() {
                        assert(r2[s] == rounds[s]);
                        assert(rounds[s][i].1 >= rounds[s][j].1);
                    } else {
                        assert(r2[s] == round_hits@);
                    }
                }
            }
            assert(rounds_bounded(r2, top_k as int)) by {
                assert forall|s: int|
                    0 <= s < r2.len() implies (#[trigger] r2[s]).len() <= base_spec * (s + 1) by {
                    if s < rounds.len() {
                        assert(r2[s] == rounds[s]);
                        assert(rounds[s].len() <= base_spec * (s + 1));
                    } else {
                        assert(r2[s] == round_hits@);
                        assert(round_hits@.len() <= limit as int);
                        assert(limit as int <= base_spec * (round as int));
                    }
                }
            }
            rounds = r2;
        }
        let current = top_k_from_merged(&merged, top_k);
        let current_ids = ids_of(&current);
        let current_sum = sum_scores(&current);
        proof {
            assert forall|i: int, j: int|
                0 <= i < j < current_ids@.len() implies current_ids@[i] != current_ids@[j] by {
                assert(current@[i].0 != current@[j].0);
            }
        }
        match &prev {
            Some(pv) => {
                if check_stability(&pv.0, &current_ids, pv.1, current_sum) {
                    if stable_rounds < query::MAX_REFINEMENT_ROUNDS {
                        stable_rounds = stable_rounds + 1;
                    }
                } else {
                    stable_rounds = 0;
                }
            },
            None => {},
        }
        prev = Some((current_ids, current_sum));
        if round_hit_count < limit {
            break ;
        }
        let merged_len = maps::rank_map_len(&merged);
        if merged_len >= top_k && stable_rounds >= EARLY_STOP_STABLE_ROUNDS {
            break ;
        }
        round = round + 1;
    }
    let reranked = top_k_from_merged(&merged, top_k);
    proof {
        assert(1 <= rounds.len() <= query::MAX_REFINEMENT_ROUNDS as int && rounds_wf(rounds)
            && rounds_bounded(rounds, top_k as int) && is_ranked_slice(
            reranked@,
            merged_rounds(rounds),
            top_k as int,
        ));
        assert(ranked_from_rounds(reranked@, top_k as int));
    }
    Ok(reranked)
}

} // verus!
