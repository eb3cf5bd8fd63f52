use vstd::prelude::*;

use vstd::relations::{sorted_by, total_ordering};
use vstd::seq_lib::lemma_sorted_unique;

use crate::ext::maps::{self, VoteAgg};
use crate::math::topk::{lemma_insert_multiset, lemma_sorted_prefix_pair};
use crate::vdb::adapter::{DocId, ScoredDoc};
use crate::vdb::query::SEGMENT_COUNT;

verus! {

/// Fixed-point unit of the reciprocal-rank score: a hit at 0-based rank `r`
/// contributes `RANK_ONE / (r + 1)`, the fixed-point value of `1 / (r + 1)`.
pub const RANK_ONE: u64 = 1_000_000;

/// Tri-state strength classification of a document's vote count.
#[derive(Debug, Clone, Copy, PartialEq, Eq)]
pub enum VoteClass {
    Strong,
    Weak,
    Noise,
}

/// Per-document aggregate over all segment result lists.
#[derive(Debug, Clone, Copy)]
pub struct VoteRecord {
    pub doc_id: DocId,
    pub votes: u8,
    pub rank_score: u64,
    pub best_score: i64,
}

/// `x` capped at the largest `u8`.
pub open spec fn sat_u8(x: int) -> int {
    if x > 255 {
        255int
    } else {
        x
    }
}

/// `x` capped at the largest `u64`.
pub open spec fn sat_u64(x: int) -> int {
    if x > u64::MAX {
        u64::MAX as int
    } else {
        x
    }
}

/// Number of hits for `id` in one segment result list.
pub open spec fn seg_votes(seg: Seq<ScoredDoc>, id: DocId) -> int
    decreases seg.len(),
{
    if seg.len() == 0 {
        0
    } else {
        seg_votes(seg.drop_last(), id) + if seg.last().0 == id {
            1int
        } else {
            0int
        }
    }
}

/// Reciprocal-rank contribution of `id` in one segment result list: the sum
/// of `RANK_ONE / (r + 1)` over every 0-based rank `r` where `id` appears.
pub open spec fn seg_rank_sum(seg: Seq<ScoredDoc>, id: DocId) -> int
    decreases seg.len(),
{
    if seg.len() == 0 {
        0
    } else {
        seg_rank_sum(seg.drop_last(), id) + if seg.last().0 == id {
            (RANK_ONE as int) / (seg.len() as int)
        } else {
            0int
        }
    }
}

/// Best raw score of `id` in one segment result list, with the smallest
/// `i64` as the identity when `id` does not appear.
pub open spec fn seg_best(seg: Seq<ScoredDoc>, id: DocId) -> int
    decreases seg.len(),
{
    if seg.len() == 0 {
        i64::MIN as int
    } else {
        let rest = seg_best(seg.drop_last(), id);
        let here = if seg.last().0 == id {
            seg.last().1 as int
        } else {
            i64::MIN as int
        };
        if here > rest {
            here
        } else {
            rest
        }
    }
}

/// Total vote count of `id` across all segment result lists.
pub open spec fn votes_of(segs: Seq<Seq<ScoredDoc>>, id: DocId) -> int
    decreases segs.len(),
{
    if segs.len() == 0 {
        0
    } else {
        votes_of(segs.drop_last(), id) + seg_votes(segs.last(), id)
    }
}

/// Total reciprocal-rank score of `id` across all segment result lists.
pub open spec fn rank_of(segs: Seq<Seq<ScoredDoc>>, id: DocId) -> int
    decreases segs.len(),
{
    if segs.len() == 0 {
        0
    } else {
        rank_of(segs.drop_last(), id) + seg_rank_sum(segs.last(), id)
    }
}

/// Best raw score of `id` across all segment result lists.
pub open spec fn best_of(segs: Seq<Seq<ScoredDoc>>, id: DocId) -> int
    decreases segs.len(),
{
    if segs.len() == 0 {
        i64::MIN as int
    } else {
        let rest = best_of(segs.drop_last(), id);
        let here = seg_best(segs.last(), id);
        if here > rest {
            here
        } else {
            rest
        }
    }
}

/// The aggregate a document's map entry must hold after merging `segs`.
pub open spec fn agg_of(segs: Seq<Seq<ScoredDoc>>, id: DocId) -> VoteAgg {
    (sat_u8(votes_of(segs, id)) as u8, sat_u64(rank_of(segs, id)) as u64, best_of(segs, id) as i64)
}

/// The vote map holds exactly the documents seen in `segs`, each with its
/// saturating vote count, saturating rank score, and best score.
pub open spec fn vote_inv(m: Map<DocId, VoteAgg>, segs: Seq<Seq<ScoredDoc>>) -> bool {
    forall|id: DocId| #[trigger] vote_inv_entry(m, segs, id)
}

/// Aggregates of one segment are within their numeric ranges.
pub proof fn lemma_seg_ranges(seg: Seq<ScoredDoc>, id: DocId)
    ensures
        0 <= seg_votes(seg, id) <= seg.len(),
        0 <= seg_rank_sum(seg, id) <= seg.len() * (RANK_ONE as int),
        i64::MIN <= seg_best(seg, id) <= i64::MAX,
        seg_votes(seg, id) == 0 ==> seg_rank_sum(seg, id) == 0 && seg_best(seg, id) == i64::MIN,
    decreases seg.len(),
{
    if seg.len() > 0 {
        lemma_seg_ranges(seg.drop_last(), id);
        assert(0 <= (RANK_ONE as int) / (seg.len() as int) <= RANK_ONE as int) by {
            vstd::arithmetic::div_mod::lemma_div_pos_is_pos(RANK_ONE as int, seg.len() as int);
            vstd::arithmetic::div_mod::lemma_div_is_ordered_by_denominator(
                RANK_ONE as int,
                1,
                seg.len() as int,
            );
        };
        assert((seg.len() - 1) * (RANK_ONE as int) + RANK_ONE as int == seg.len() * (
        RANK_ONE as int)) by (nonlinear_arith);
    }
}

/// Aggregates across segments are within their numeric ranges, and a
/// document with no votes has the identity aggregates.
pub proof fn lemma_agg_ranges(segs: Seq<Seq<ScoredDoc>>, id: DocId)
    ensures
        0 <= votes_of(segs, id),
        0 <= rank_of(segs, id),
        i64::MIN <= best_of(segs, id) <= i64::MAX,
        votes_of(segs, id) == 0 ==> rank_of(segs, id) == 0 && best_of(segs, id) == i64::MIN,
    decreases segs.len(),
{
    if segs.len() > 0 {
        lemma_agg_ranges(segs.drop_last(), id);
        lemma_seg_ranges(segs.last(), id);
    }
}

/// Extending the last segment by one hit changes the aggregates of exactly
/// that hit's document, by exactly one vote, one reciprocal-rank term, and
/// one best-score candidate.
pub proof fn lemma_agg_push(ss: Seq<Seq<ScoredDoc>>, t: Seq<ScoredDoc>, e: ScoredDoc, id: DocId)
    ensures
        votes_of(ss.push(t.push(e)), id) == votes_of(ss.push(t), id) + if e.0 == id {
            1int
        } else {
            0int
        },
        rank_of(ss.push(t.push(e)), id) == rank_of(ss.push(t), id) + if e.0 == id {
            (RANK_ONE as int) / (t.len() as int + 1)
        } else {
            0int
        },
        best_of(ss.push(t.push(e)), id) == if e.0 == id && e.1 as int > best_of(ss.push(t), id) {
            e.1 as int
        } else {
            best_of(ss.push(t), id)
        },
{
    let t2 = t.push(e);
    assert(ss.push(t2).drop_last() =~= ss);
    assert(ss.push(t).drop_last() =~= ss);
    assert(ss.push(t2).last() == t2);
    assert(ss.push(t).last() == t);
    assert(t2.drop_last() =~= t);
    assert(t2.last() == e);
    lemma_seg_ranges(t, id);
    lemma_agg_ranges(ss, id);
}

/// Appending an empty segment list changes no aggregate.
pub proof fn lemma_agg_push_empty(ss: Seq<Seq<ScoredDoc>>, id: DocId)
    ensures
        votes_of(ss.push(Seq::empty()), id) == votes_of(ss, id),
        rank_of(ss.push(Seq::empty()), id) == rank_of(ss, id),
        best_of(ss.push(Seq::empty()), id) == best_of(ss, id),
{
    let ss2 = ss.push(Seq::<ScoredDoc>::empty());
    assert(ss2.drop_last() =~= ss);
    assert(ss2.last() =~= Seq::<ScoredDoc>::empty());
    lemma_agg_ranges(ss, id);
}

/// The segment result lists as mathematical sequences.
pub open spec fn rows(segments: Seq<Vec<ScoredDoc>>) -> Seq<Seq<ScoredDoc>> {
    Seq::new(segments.len(), |i: int| segments[i]@)
}

/// Merges the per-segment result lists into one vote aggregate per document:
/// each hit of a document adds one vote and one reciprocal-rank term, and
/// its best score is the maximum raw score over all its hits. The map holds
/// exactly the documents that some segment returned.
fn merge_into_vote_map(segment_results: &Vec<Vec<ScoredDoc>>) -> (m: maps::VoteMap)
    ensures
        vote_inv(maps::vote_map_view(m), rows(segment_results@)),
        maps::vote_map_view(m).dom().finite(),
{
    let mut m = maps::vote_map_new();
    let ghost srows = rows(segment_results@);
    proof {
        assert(srows.take(0) =~= Seq::<Seq<ScoredDoc>>::empty());
        assert forall|id: DocId| !(votes_of(srows.take(0), id) > 0) by {}
    }
    let ns = segment_results.len();
    for s in 0..ns
        invariant
            ns == segment_results@.len(),
            srows == rows(segment_results@),
            srows.len() == ns,
            vote_inv(maps::vote_map_view(m), srows.take(s as int)),
            maps::vote_map_view(m).dom().finite(),
    {
        let seg: &Vec<ScoredDoc> = segment_results.get(s).unwrap();
        proof {
            assert(seg@ == srows[s as int]);
            assert forall|id: DocId|
                vote_inv_entry(
                    maps::vote_map_view(m),
                    srows.take(s as int).push(seg@.take(0)),
                    id,
                ) by {
                assert(vote_inv_entry(maps::vote_map_view(m), srows.take(s as int), id));
                lemma_agg_push_empty(srows.take(s as int), id);
                assert(seg@.take(0) =~= Seq::<ScoredDoc>::empty());
            }
        }
        let nh = seg.len();
        for j in 0..nh
            invariant
                ns == segment_results@.len(),
                srows == rows(segment_results@),
                srows.len() == ns,
                s < ns,
                nh == seg@.len(),
                seg@ == srows[s as int],
                vote_inv(maps::vote_map_view(m), srows.take(s as int).push(seg@.take(j as int))),
                maps::vote_map_view(m).dom().finite(),
        {
            let hit: ScoredDoc = *seg.get(j).unwrap();
            let rterm: u64 = RANK_ONE / ((j as u64) + 1);
            let prev: VoteAgg = match maps::vote_map_get(&m, hit.0) {
                Some(a) => a,
                None => (0u8, 0u64, i64::MIN),
            };
            let votes: u8 = if prev.0 < 255 {
                prev.0 + 1
            } else {
                255
            };
            let rank: u64 = if prev.1 <= u64::MAX - rterm {
                prev.1 + rterm
            } else {
                u64::MAX
            };
            let best: i64 = if prev.2 >= hit.1 {
                prev.2
            } else {
                hit.1
            };
            let ghost view0 = maps::vote_map_view(m);
            let ghost p1 = srows.take(s as int).push(seg@.take(j as int));
            let ghost p2 = srows.take(s as int).push(seg@.take(j as int + 1));
            maps::vote_map_insert(&mut m, hit.0, (votes, rank, best));
            proof {
                let view1 = maps::vote_map_view(m);
                assert(seg@.take(j as int + 1) =~= seg@.take(j as int).push(seg@[j as int]));
                assert(view1.dom() =~= view0.dom().insert(hit.0));
                assert forall|id: DocId| vote_inv_entry(view1, p2, id) by {
                    assert(vote_inv_entry(view0, p1, id));
                    lemma_agg_push(srows.take(s as int), seg@.take(j as int), hit, id);
                    lemma_agg_ranges(p1, id);
                    lemma_agg_ranges(p2, id);
                    if id == hit.0 {
                        let v0 = votes_of(p1, id);
                        let r0 = rank_of(p1, id);
                        let b0 = best_of(p1, id);
                        if view0.dom().contains(id) {
                            assert(view0[id] == agg_of(p1, id));
                        } else {
                            assert(v0 == 0 && r0 == 0 && b0 == i64::MIN);
                        }
                        assert(prev.0 == sat_u8(v0) && prev.1 == sat_u64(r0) && prev.2 == b0);
                        assert(votes == sat_u8(v0 + 1));
                        assert(rterm == (RANK_ONE as int) / (j as int + 1));
                        assert(rank == sat_u64(r0 + rterm));
                        assert(view1[id] == agg_of(p2, id));
                    } else {
                        assert(votes_of(p2, id) == votes_of(p1, id));
                        if view1.dom().contains(id) {
                            assert(view1[id] == view0[id]);
                        }
                    }
                }
            }
        }
        proof {
            assert(seg@.take(nh as int) =~= seg@);
            assert(srows.take(s as int).push(seg@.take(nh as int)) =~= srows.take(s as int + 1));
        }
    }
    proof {
        assert(srows.take(ns as int) =~= srows);
    }
    m
}

/// One document's clause of `vote_inv`.
pub open spec fn vote_inv_entry(m: Map<DocId, VoteAgg>, segs: Seq<Seq<ScoredDoc>>, id: DocId) -> bool {
    &&& m.dom().contains(id) <==> votes_of(segs, id) > 0
    &&& m.dom().contains(id) ==> m[id] == agg_of(segs, id)
}

/// Ranking order on vote records: vote count first, then rank score, then
/// best score, all descending, with ascending document identifier as the
/// final deterministic tie-break. A total order.
pub open spec fn vote_leq(a: VoteRecord, b: VoteRecord) -> bool {
    ||| a.votes > b.votes
    ||| (a.votes == b.votes && a.rank_score > b.rank_score)
    ||| (a.votes == b.votes && a.rank_score == b.rank_score && a.best_score > b.best_score)
    ||| (a.votes == b.votes && a.rank_score == b.rank_score && a.best_score == b.best_score
        && a.doc_id <= b.doc_id)
}

/// `vote_leq` as a first-class relation, for `Seq::sort_by`.
pub open spec fn vote_order() -> spec_fn(VoteRecord, VoteRecord) -> bool {
    |a: VoteRecord, b: VoteRecord| vote_leq(a, b)
}

/// The vote ranking order is a total order.
pub proof fn lemma_vote_order_total()
    ensures
        total_ordering(vote_order()),
{
}

/// Exec decision of the vote ranking order.
fn vote_le(a: &VoteRecord, b: &VoteRecord) -> (r: bool)
    ensures
        r == vote_leq(*a, *b),
{
    if a.votes != b.votes {
        a.votes > b.votes
    } else if a.rank_score != b.rank_score {
        a.rank_score > b.rank_score
    } else if a.best_score != b.best_score {
        a.best_score > b.best_score
    } else {
        a.doc_id <= b.doc_id
    }
}

/// Sorts vote records under the vote ranking order.
fn sort_vote_records(records: &mut Vec<VoteRecord>)
    ensures
        final(records)@ == old(records)@.sort_by(vote_order()),
{
    let ghost orig = records@;
    proof {
        lemma_vote_order_total();
        orig.lemma_sort_by_ensures(vote_order());
    }
    let n = records.len();
    if n > 1 {
        let mut i: usize = 1;
        while i < n
            invariant
                1 <= i <= n,
                n == records@.len(),
                records@.len() == orig.len(),
                records@.to_multiset() == orig.to_multiset(),
                sorted_by(records@.take(i as int), vote_order()),
            decreases n - i,
        {
            let x = *records.get(i).unwrap();
            let ghost s0 = records@;
            let mut p: usize = i;
            loop
                invariant
                    0 <= p <= i < n,
                    n == records@.len(),
                    records@ == s0,
                    x == s0[i as int],
                    forall|k: int| p <= k < i ==> vote_leq(x, #[trigger] records@[k]),
                    sorted_by(records@.take(i as int), vote_order()),
                ensures
                    0 <= p <= i,
                    records@ == s0,
                    forall|k: int| p <= k < i ==> vote_leq(x, #[trigger] records@[k]),
                    forall|k: int| 0 <= k < p ==> vote_leq(#[trigger] records@[k], x),
                decreases p,
            {
                if p == 0 {
                    break ;
                }
                let prev = records.get(p - 1).unwrap();
                if vote_le(prev, &x) {
                    proof {
                        assert forall|k: int| 0 <= k < p implies vote_leq(
                            #[trigger] records@[k],
                            x,
                        ) by {
                            if k < p - 1 {
                                lemma_sorted_prefix_pair(records@, vote_order(), i as int, k, p - 1);
                                assert(vote_leq(records@[k], records@[p - 1]));
                            }
                        }
                    }
                    break ;
                }
                proof {
                    assert(vote_leq(x, records@[p - 1]));
                }
                p = p - 1;
            }
            let y = records.remove(i);
            records.insert(p, y);
            proof {
                assert(y == x);
                let s1 = s0.remove(i as int);
                let s2 = s1.insert(p as int, x);
                assert(records@ == s2);
                broadcast use vstd::seq_lib::group_to_multiset_ensures;

                lemma_insert_multiset(s1, p as int, x);
                assert(s2.to_multiset() =~= s0.to_multiset());
                assert forall|a: int, b: int|
                    0 <= a < b < i as int + 1 implies vote_leq(#[trigger] s2[a], #[trigger] s2[b]) by {
                    assert(forall|k: int| 0 <= k < i ==> s1[k] == s0[k]);
                    assert(forall|k: int|
                        0 <= k < p ==> #[trigger] s2[k] == s1[k] && s2[k] == s0[k]);
                    assert(s2[p as int] == x);
                    assert(forall|k: int| p < k <= i ==> #[trigger] s2[k] == s1[k - 1]);
                    if b < p {
                        lemma_sorted_prefix_pair(s0, vote_order(), i as int, a, b);
                        assert(vote_leq(s2[a], s2[b]));
                    } else if b == p {
                        assert(vote_leq(s0[a], x));
                    } else {
                        if a < p {
                            assert(vote_leq(s0[a], x));
                            assert(vote_leq(x, s0[b - 1]));
                        } else if a == p {
                            assert(vote_leq(x, s0[b - 1]));
                        } else {
                            lemma_sorted_prefix_pair(s0, vote_order(), i as int, a - 1, b - 1);
                            assert(vote_leq(s0[a - 1], s0[b - 1]));
                        }
                    }
                }
                assert(sorted_by(s2.take(i as int + 1), vote_order()));
            }
            i = i + 1;
        }
        proof {
            assert(records@.take(n as int) =~= records@);
            lemma_sorted_unique(records@, orig.sort_by(vote_order()), vote_order());
            assert(records@ =~= orig.sort_by(vote_order()));
        }
    } else {
        proof {
            lemma_sorted_unique(records@, orig.sort_by(vote_order()), vote_order());
            assert(records@ =~= orig.sort_by(vote_order()));
        }
    }
}

/// The full ranked vote tally of the segment result lists: one record per
/// document that any segment returned, holding its exact aggregates, ordered
/// by descending vote count, then descending rank score, then descending
/// best score, then ascending document identifier.
pub fn merge_segment_results(segment_results: &Vec<Vec<ScoredDoc>>) -> (records: Vec<VoteRecord>)
    ensures
        sorted_by(records@, vote_order()),
        forall|i: int, j: int|
            0 <= i < j < records@.len() ==> (#[trigger] records@[i]).doc_id != (
            #[trigger] records@[j]).doc_id,
        forall|i: int|
            0 <= i < records@.len() ==> votes_of(rows(segment_results@), (
            #[trigger] records@[i]).doc_id) > 0,
        forall|i: int|
            0 <= i < records@.len() ==> record_matches(
                #[trigger] records@[i],
                rows(segment_results@),
            ),
        forall|id: DocId|
            votes_of(rows(segment_results@), id) > 0 ==> exists|i: int|
                0 <= i < records@.len() && (#[trigger] records@[i]).doc_id == id,
{
    let m = merge_into_vote_map(segment_results);
    let pairs = maps::vote_map_to_vec(&m);
    let ghost view = maps::vote_map_view(m);
    let ghost srows = rows(segment_results@);
    let mut records: Vec<VoteRecord> = Vec::new();
    let np = pairs.len();
    for k in 0..np
        invariant
            np == pairs@.len(),
            records@.len() == k,
            forall|x: int|
                0 <= x < k as int ==> (#[trigger] records@[x]).doc_id == pairs@[x].0
                    && records@[x].votes == pairs@[x].1.0 && records@[x].rank_score
                    == pairs@[x].1.1 && records@[x].best_score == pairs@[x].1.2,
    {
        let pair = *pairs.get(k).unwrap();
        records.push(
            VoteRecord {
                doc_id: pair.0,
                votes: pair.1.0,
                rank_score: pair.1.1,
                best_score: pair.1.2,
            },
        );
    }
    proof {
        assert forall|x: int| 0 <= x < records@.len() implies record_matches(
            #[trigger] records@[x],
            srows,
        ) && votes_of(srows, records@[x].doc_id) > 0 by {
            assert(view.dom().contains(pairs@[x].0) && view[pairs@[x].0] == pairs@[x].1);
            assert(vote_inv_entry(view, srows, records@[x].doc_id));
            lemma_agg_ranges(srows, records@[x].doc_id);
        }
        assert(records@.no_duplicates()) by {
            assert forall|i: int, j: int| 0 <= i < j < records@.len() implies records@[i]
                != records@[j] by {
                assert(records@[i].doc_id == pairs@[i].0);
                assert(records@[j].doc_id == pairs@[j].0);
            }
        }
    }
    let ghost pre = records@;
    sort_vote_records(&mut records);
    proof {
        broadcast use vstd::seq_lib::group_to_multiset_ensures;

        pre.lemma_sort_by_ensures(vote_order());
        lemma_vote_order_total();
        assert(records@.to_multiset() == pre.to_multiset());
        pre.lemma_multiset_has_no_duplicates();
        assert forall|i: int| 0 <= i < records@.len() implies record_matches(
            #[trigger] records@[i],
            srows,
        ) && votes_of(srows, records@[i].doc_id) > 0 by {
            assert(records@.to_multiset().contains(records@[i])) by {
                assert(records@.to_multiset().count(records@[i]) > 0);
            }
            assert(pre.contains(records@[i]));
            let a = choose|a: int| 0 <= a < pre.len() && pre[a] == records@[i];
            assert(record_matches(pre[a], srows));
        }
        assert forall|i: int, j: int| 0 <= i < j < records@.len() implies (
        #[trigger] records@[i]).doc_id != (#[trigger] records@[j]).doc_id by {
            assert(records@.to_multiset().contains(records@[i]));
            assert(records@.to_multiset().contains(records@[j]));
            assert(pre.contains(records@[i]));
            assert(pre.contains(records@[j]));
            if records@[i] == records@[j] {
                records@.lemma_multiset_has_no_duplicates_conv();
                assert(records@.no_duplicates());
            } else {
                let a = choose|a: int| 0 <= a < pre.len() && pre[a] == records@[i];
                let b = choose|b: int| 0 <= b < pre.len() && pre[b] == records@[j];
                assert(pre[a].doc_id == pairs@[a].0);
            }
        }
        assert forall|id: DocId| votes_of(srows, id) > 0 implies exists|i: int|
            0 <= i < records@.len() && (#[trigger] records@[i]).doc_id == id by {
            assert(vote_inv_entry(view, srows, id));
            assert(view.dom().contains(id));
            let i0 = choose|i0: int| 0 <= i0 < pairs@.len() && (#[trigger] pairs@[i0]).0 == id;
            assert(pre[i0].doc_id == id);
            assert(pre.contains(pre[i0]));
            assert(pre.to_multiset().contains(pre[i0]));
            assert(records@.to_multiset().contains(pre[i0]));
            assert(records@.contains(pre[i0]));
            let i1 = choose|i1: int| 0 <= i1 < records@.len() && records@[i1] == pre[i0];
            assert(records@[i1].doc_id == id);
        }
    }
    records
}

/// Classification of a vote count: Strong at three or more segment hits,
/// Weak at exactly two, Noise below.
pub fn classify_vote(votes: u8) -> (r: VoteClass)
    ensures
        r is Strong <==> votes >= 3,
        r is Weak <==> votes == 2,
        r is Noise <==> votes <= 1,
{
    if votes >= 3 {
        VoteClass::Strong
    } else if votes == 2 {
        VoteClass::Weak
    } else {
        VoteClass::Noise
    }
}

/// The survivor identifiers: the first `limit` documents of `records`, in
/// order, whose classification is Weak or better (at least two votes).
pub open spec fn survivor_ids(records: Seq<VoteRecord>, limit: int) -> Seq<DocId>
    decreases records.len(),
{
    if records.len() == 0 || limit <= 0 {
        Seq::empty()
    } else if records.first().votes >= 2 {
        seq![records.first().doc_id] + survivor_ids(records.drop_first(), limit - 1)
    } else {
        survivor_ids(records.drop_first(), limit)
    }
}

/// Filters the ranked records down to the survivor set: Noise-classified
/// documents are dropped and at most `limit` identifiers are kept, in
/// ranking order.
pub fn select_survivor_ids(records: &Vec<VoteRecord>, limit: usize) -> (survivors: Vec<DocId>)
    ensures
        survivors@ == survivor_ids(records@, limit as int),
{
    let mut survivors: Vec<DocId> = Vec::new();
    let n = records.len();
    proof {
        assert(records@.skip(0) =~= records@);
    }
    for i in 0..n
        invariant
            n == records@.len(),
            survivors@.len() <= limit,
            survivor_ids(records@, limit as int) == survivors@ + survivor_ids(
                records@.skip(i as int),
                limit as int - survivors@.len(),
            ),
    {
        let r = records.get(i).unwrap();
        let ghost rest = records@.skip(i as int);
        let ghost before = survivors@;
        proof {
            assert(rest.len() == n - i);
            assert(rest.first() == records@[i as int]);
            assert(rest.drop_first() =~= records@.skip(i as int + 1));
        }
        if survivors.len() < limit && r.votes >= 2 {
            survivors.push(r.doc_id);
            proof {
                assert(survivor_ids(rest, limit as int - before.len()) == seq![
                    records@[i as int].doc_id,
                ] + survivor_ids(records@.skip(i as int + 1), limit as int - before.len() - 1));
                assert(before + (seq![records@[i as int].doc_id] + survivor_ids(
                    records@.skip(i as int + 1),
                    limit as int - before.len() - 1,
                )) =~= survivors@ + survivor_ids(
                    records@.skip(i as int + 1),
                    limit as int - survivors@.len(),
                ));
            }
        } else {
            proof {
                if before.len() < limit {
                    assert(r.votes < 2);
                    assert(survivor_ids(rest, limit as int - before.len()) == survivor_ids(
                        records@.skip(i as int + 1),
                        limit as int - before.len(),
                    ));
                } else {
                    assert(survivor_ids(rest, 0) =~= Seq::<DocId>::empty());
                    assert(survivor_ids(records@.skip(i as int + 1), 0) =~= Seq::<DocId>::empty());
                }
            }
        }
    }
    proof {
        assert(records@.skip(n as int).len() == 0);
        assert(survivor_ids(records@.skip(n as int), limit as int - survivors@.len())
            =~= Seq::<DocId>::empty());
        assert(survivor_ids(records@, limit as int) =~= survivors@);
    }
    survivors
}

/// Number of Weak-or-better records strictly before position `idx`.
pub open spec fn non_noise_before(records: Seq<VoteRecord>, idx: int) -> int
    decreases idx,
{
    if idx <= 0 {
        0
    } else {
        non_noise_before(records, idx - 1) + if records[idx - 1].votes >= 2 {
            1int
        } else {
            0int
        }
    }
}

/// The count of Weak-or-better records before a position, after dropping
/// the first record.
proof fn lemma_non_noise_drop_first(records: Seq<VoteRecord>, idx: int)
    requires
        1 <= idx <= records.len(),
    ensures
        non_noise_before(records, idx) == (if records[0].votes >= 2 {
            1int
        } else {
            0int
        }) + non_noise_before(records.drop_first(), idx - 1),
        non_noise_before(records, idx) >= 0,
    decreases idx,
{
    assert(non_noise_before(records, idx) == non_noise_before(records, idx - 1)
        + if records[idx - 1].votes >= 2 {
        1int
    } else {
        0int
    });
    if idx == 1 {
        assert(non_noise_before(records, 0) == 0);
        assert(non_noise_before(records.drop_first(), 0) == 0);
    } else {
        lemma_non_noise_drop_first(records, idx - 1);
        let rest = records.drop_first();
        assert(rest[idx - 2] == records[idx - 1]);
        assert(non_noise_before(rest, idx - 1) == non_noise_before(rest, idx - 2)
            + if rest[idx - 2].votes >= 2 {
            1int
        } else {
            0int
        });
    }
}

/// A Weak-or-better record preceded by fewer than `limit` Weak-or-better
/// records is always selected as a survivor.
pub proof fn lemma_survivor_selection(records: Seq<VoteRecord>, limit: int, i: int)
    requires
        0 <= i < records.len(),
        records[i].votes >= 2,
        non_noise_before(records, i) < limit,
    ensures
        survivor_ids(records, limit).contains(records[i].doc_id),
    decreases i,
{
    if i == 0 {
        assert(survivor_ids(records, limit)[0] == records[0].doc_id);
    } else {
        lemma_non_noise_drop_first(records, i);
        let rest = records.drop_first();
        assert(rest[i - 1] == records[i]);
        if records.first().votes >= 2 {
            lemma_survivor_selection(rest, limit - 1, i - 1);
            let tail = survivor_ids(rest, limit - 1);
            let k = choose|k: int| 0 <= k < tail.len() && tail[k] == records[i].doc_id;
            assert(survivor_ids(records, limit)[k + 1] == records[i].doc_id);
        } else {
            lemma_survivor_selection(rest, limit, i - 1);
        }
    }
}

/// Whether some position of `seg` holds document `id`.
pub open spec fn seg_has(seg: Seq<ScoredDoc>, id: DocId) -> bool {
    exists|k: int| 0 <= k < seg.len() && #[trigger] seg[k].0 == id
}

/// Whether every position of `seg` names a distinct document.
pub open spec fn seg_distinct(seg: Seq<ScoredDoc>) -> bool {
    forall|k1: int, k2: int|
        0 <= k1 < k2 < seg.len() ==> (#[trigger] seg[k1]).0 != (#[trigger] seg[k2]).0
}

/// Whether every segment list holds `id` somewhere.
pub open spec fn appears_in_all(segs: Seq<Seq<ScoredDoc>>, id: DocId) -> bool {
    forall|s: int| 0 <= s < segs.len() ==> seg_has(#[trigger] segs[s], id)
}

/// Number of records before position `idx` whose document every segment
/// returned.
pub open spec fn all_segment_docs_before(
    records: Seq<VoteRecord>,
    segs: Seq<Seq<ScoredDoc>>,
    idx: int,
) -> int
    decreases idx,
{
    if idx <= 0 {
        0
    } else {
        all_segment_docs_before(records, segs, idx - 1) + if appears_in_all(
            segs,
            records[idx - 1].doc_id,
        ) {
            1int
        } else {
            0int
        }
    }
}

/// A positive vote count means the list holds the document somewhere.
pub proof fn lemma_seg_votes_pos_converse(seg: Seq<ScoredDoc>, id: DocId)
    requires
        seg_votes(seg, id) >= 1,
    ensures
        seg_has(seg, id),
    decreases seg.len(),
{
    if seg.len() > 0 {
        if seg.last().0 == id {
            assert(seg[seg.len() - 1].0 == id);
        } else {
            lemma_seg_votes_pos_converse(seg.drop_last(), id);
            let k = choose|k: int|
                0 <= k < seg.drop_last().len() && #[trigger] seg.drop_last()[k].0 == id;
            assert(seg[k].0 == id);
        }
    }
}

/// With distinct documents per list, a document collects at most one vote
/// from one segment list.
proof fn lemma_seg_votes_at_most_one(seg: Seq<ScoredDoc>, id: DocId)
    requires
        seg_distinct(seg),
    ensures
        seg_votes(seg, id) <= 1,
    decreases seg.len(),
{
    if seg.len() > 0 {
        let rest = seg.drop_last();
        assert(seg_distinct(rest)) by {
            assert(forall|k1: int, k2: int|
                0 <= k1 < k2 < rest.len() ==> (#[trigger] rest[k1]).0 != (#[trigger] rest[k2]).0);
        }
        lemma_seg_votes_at_most_one(rest, id);
        lemma_seg_ranges(rest, id);
        if seg.last().0 == id && seg_votes(rest, id) >= 1 {
            lemma_seg_votes_pos_converse(rest, id);
            let k = choose|k: int| 0 <= k < rest.len() && #[trigger] rest[k].0 == id;
            assert(seg[k].0 == seg[seg.len() - 1].0);
        }
    }
}

/// With distinct documents per list, the total vote count of one document
/// is at most the number of lists.
proof fn lemma_votes_upper(segs: Seq<Seq<ScoredDoc>>, id: DocId)
    requires
        forall|s: int| 0 <= s < segs.len() ==> seg_distinct(#[trigger] segs[s]),
    ensures
        votes_of(segs, id) <= segs.len(),
    decreases segs.len(),
{
    if segs.len() > 0 {
        let rest = segs.drop_last();
        assert(forall|s: int| 0 <= s < rest.len() ==> rest[s] == #[trigger] segs[s]);
        lemma_votes_upper(rest, id);
        lemma_seg_votes_at_most_one(segs.last(), id);
    }
}

/// With distinct documents per list, a document that collected one vote
/// per list appears in every list.
proof fn lemma_votes_cover_all_segments(segs: Seq<Seq<ScoredDoc>>, id: DocId)
    requires
        forall|s: int| 0 <= s < segs.len() ==> seg_distinct(#[trigger] segs[s]),
        votes_of(segs, id) >= segs.len(),
    ensures
        appears_in_all(segs, id),
    decreases segs.len(),
{
    if segs.len() > 0 {
        let rest = segs.drop_last();
        assert(forall|s: int| 0 <= s < rest.len() ==> rest[s] == #[trigger] segs[s]);
        lemma_votes_upper(rest, id);
        lemma_seg_votes_at_most_one(segs.last(), id);
        lemma_agg_ranges(rest, id);
        assert(seg_votes(segs.last(), id) >= 1);
        lemma_seg_votes_pos_converse(segs.last(), id);
        lemma_votes_cover_all_segments(rest, id);
        assert forall|s: int| 0 <= s < segs.len() implies seg_has(#[trigger] segs[s], id) by {
            if s < segs.len() - 1 {
                assert(seg_has(rest[s], id));
            } else {
                assert(segs[s] == segs.last());
            }
        }
    }
}

/// A prefix in which every record counts is counted in full.
proof fn lemma_all_segment_docs_full(
    records: Seq<VoteRecord>,
    segs: Seq<Seq<ScoredDoc>>,
    idx: int,
)
    requires
        0 <= idx <= records.len(),
        forall|j: int| 0 <= j < idx ==> appears_in_all(segs, (#[trigger] records[j]).doc_id),
    ensures
        all_segment_docs_before(records, segs, idx) == idx,
    decreases idx,
{
    if idx > 0 {
        lemma_all_segment_docs_full(records, segs, idx - 1);
    }
}

/// A prefix of Weak-or-better records is counted in full.
proof fn lemma_non_noise_full(records: Seq<VoteRecord>, idx: int)
    requires
        0 <= idx <= records.len(),
        forall|j: int| 0 <= j < idx ==> (#[trigger] records[j]).votes >= 2,
    ensures
        non_noise_before(records, idx) == idx,
    decreases idx,
{
    if idx > 0 {
        lemma_non_noise_full(records, idx - 1);
    }
}

/// A document that some position of every segment holds gets at least one
/// vote from each segment.
proof fn lemma_seg_votes_pos(seg: Seq<ScoredDoc>, id: DocId, k: int)
    requires
        0 <= k < seg.len(),
        seg[k].0 == id,
    ensures
        seg_votes(seg, id) >= 1,
    decreases seg.len(),
{
    lemma_seg_ranges(seg.drop_last(), id);
    if k < seg.len() - 1 {
        lemma_seg_votes_pos(seg.drop_last(), id, k);
    }
}

/// A document appearing in every segment collects at least one vote per
/// segment.
pub proof fn lemma_all_segments_votes(segments: Seq<Seq<ScoredDoc>>, id: DocId)
    requires
        appears_in_all(segments, id),
    ensures
        votes_of(segments, id) >= segments.len(),
    decreases segments.len(),
{
    if segments.len() > 0 {
        let rest = segments.drop_last();
        assert forall|s: int| 0 <= s < rest.len() implies seg_has(#[trigger] rest[s], id) by {
            assert(rest[s] == segments[s]);
            assert(seg_has(segments[s], id));
        }
        lemma_all_segments_votes(rest, id);
        let sl = segments[segments.len() - 1];
        assert(seg_has(sl, id));
        let k = choose|k: int| 0 <= k < sl.len() && #[trigger] sl[k].0 == id;
        lemma_seg_votes_pos(segments.last(), id, k);
    }
}

/// Voting monotonicity: when each segment list names distinct documents, a
/// document returned by all `SEGMENT_COUNT` segment lists is always
/// classified Strong, and it enters the survivor set unless `limit`
/// documents that every segment also returned outrank it in the merged
/// order.
pub proof fn lemma_vote_monotonicity(
    segments: Seq<Seq<ScoredDoc>>,
    records: Seq<VoteRecord>,
    limit: int,
    id: DocId,
)
    requires
        segments.len() == SEGMENT_COUNT,
        forall|s: int| 0 <= s < segments.len() ==> seg_distinct(#[trigger] segments[s]),
        appears_in_all(segments, id),
        sorted_by(records, vote_order()),
        forall|i: int| 0 <= i < records.len() ==> record_matches(#[trigger] records[i], segments),
        forall|id2: DocId|
            votes_of(segments, id2) > 0 ==> exists|i: int|
                0 <= i < records.len() && (#[trigger] records[i]).doc_id == id2,
    ensures
        exists|i: int|
            0 <= i < records.len() && (#[trigger] records[i]).doc_id == id && records[i].votes >= 3,
        forall|i: int|
            0 <= i < records.len() && (#[trigger] records[i]).doc_id == id
                && all_segment_docs_before(records, segments, i) < limit ==> survivor_ids(
                records,
                limit,
            ).contains(id),
{
    lemma_all_segments_votes(segments, id);
    assert(votes_of(segments, id) >= 4);
    let i0 = choose|i0: int| 0 <= i0 < records.len() && (#[trigger] records[i0]).doc_id == id;
    assert(record_matches(records[i0], segments));
    assert(records[i0].votes >= 3);
    assert forall|i: int|
        0 <= i < records.len() && (#[trigger] records[i]).doc_id == id && all_segment_docs_before(
            records,
            segments,
            i,
        ) < limit implies survivor_ids(records, limit).contains(id) by {
        assert(record_matches(records[i], segments));
        assert(records[i].votes >= 4);
        assert(records.take(records.len() as int) =~= records);
        assert forall|j: int| 0 <= j < i implies appears_in_all(
            segments,
            (#[trigger] records[j]).doc_id,
        ) && records[j].votes >= 2 by {
            crate::math::topk::lemma_sorted_prefix_pair(
                records,
                vote_order(),
                records.len() as int,
                j,
                i,
            );
            assert(vote_leq(records[j], records[i]));
            assert(records[j].votes >= 4);
            assert(record_matches(records[j], segments));
            assert(votes_of(segments, records[j].doc_id) >= 4) by {
                if votes_of(segments, records[j].doc_id) < 4 {
                    lemma_agg_ranges(segments, records[j].doc_id);
                }
            }
            lemma_votes_cover_all_segments(segments, records[j].doc_id);
        }
        lemma_all_segment_docs_full(records, segments, i);
        lemma_non_noise_full(records, i);
        lemma_survivor_selection(records, limit, i);
    }
}

/// A record's fields are exactly the aggregates of its document.
pub open spec fn record_matches(r: VoteRecord, segs: Seq<Seq<ScoredDoc>>) -> bool {
    &&& r.votes == sat_u8(votes_of(segs, r.doc_id))
    &&& r.rank_score == sat_u64(rank_of(segs, r.doc_id))
    &&& r.best_score == best_of(segs, r.doc_id)
}

} // verus!
