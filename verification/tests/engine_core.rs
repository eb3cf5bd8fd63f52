use svve_core::engine::voting::{
    classify_vote, merge_segment_results, select_survivor_ids, VoteClass,
};
use svve_core::math::linalg::{dot, l2_norm, FIXED_ONE};
use svve_core::math::normalize::normalized_copy;
use svve_core::math::topk::sort_desc_take;
use svve_core::vdb::query;

#[test]
fn query_segmentation_is_fixed_to_four_ranges() {
    let ranges = query::segment_ranges(10);
    assert_eq!(ranges.len(), query::SEGMENT_COUNT);
    assert_eq!(ranges[0].start, 0);
    assert_eq!(ranges.last().expect("세그먼트 범위가 필요합니다").end, 10);
}

#[test]
fn segmentation_covers_every_dimension_gap_free() {
    for dim in [1usize, 2, 3, 4, 5, 7, 8, 100, 101] {
        let ranges = query::segment_ranges(dim);
        assert_eq!(ranges.len(), 4);
        assert_eq!(ranges[0].start, 0);
        assert_eq!(ranges[3].end, dim);
        for w in 0..3 {
            assert_eq!(ranges[w].end, ranges[w + 1].start);
        }
        let base = dim / 4;
        let rem = dim % 4;
        for (idx, r) in ranges.iter().enumerate() {
            let expected = base + if idx < rem { 1 } else { 0 };
            assert_eq!(r.end - r.start, expected);
        }
    }
}

#[test]
fn segmentation_equal_lengths_when_divisible() {
    let ranges = query::segment_ranges(8);
    for r in &ranges {
        assert_eq!(r.end - r.start, 2);
    }
}

#[test]
fn segment_query_is_masked_outside_its_range() {
    let q: Vec<i64> = vec![10, 20, 30, 40, 50];
    let ranges = query::segment_ranges(5);
    let masked = query::build_segment_query(&q, ranges[1]);
    assert_eq!(masked.len(), 5);
    for i in 0..5 {
        if i >= ranges[1].start && i < ranges[1].end {
            assert_eq!(masked[i], q[i]);
        } else {
            assert_eq!(masked[i], 0);
        }
    }
}

#[test]
fn norm_and_dot_have_exact_fixed_point_values() {
    // 3-4-5 triangle at fixed-point scale: norm is exactly 500_000.
    let v: Vec<i64> = vec![300_000, 400_000];
    assert_eq!(l2_norm(&v), 500_000);
    let a: Vec<i64> = vec![FIXED_ONE, 0];
    let b: Vec<i64> = vec![FIXED_ONE / 2, FIXED_ONE / 2];
    assert_eq!(dot(&a, &b), (FIXED_ONE as i64) * (FIXED_ONE / 2));
}

#[test]
fn normalization_is_idempotent_on_unit_vectors() {
    let unit: Vec<i64> = vec![FIXED_ONE, 0, 0, 0];
    let once = normalized_copy(&unit).expect("a unit vector must normalize");
    assert_eq!(once, unit);
    let twice = normalized_copy(&once).expect("a normalized vector must normalize again");
    assert_eq!(twice, once);
}

#[test]
fn normalization_rejects_the_zero_vector() {
    let zero: Vec<i64> = vec![0, 0, 0];
    assert!(normalized_copy(&zero).is_none());
}

#[test]
fn top_k_sort_is_deterministic_with_duplicate_scores() {
    let base: Vec<(u32, i64)> = vec![(5, 700), (2, 900), (9, 700), (1, 900), (7, 100)];
    let mut first = base.clone();
    sort_desc_take(&mut first, 4);
    let mut shuffled: Vec<(u32, i64)> = vec![(1, 900), (7, 100), (9, 700), (2, 900), (5, 700)];
    sort_desc_take(&mut shuffled, 4);
    assert_eq!(first, shuffled);
    // Ties broken by ascending identifier, scores descending.
    assert_eq!(first, vec![(1, 900), (2, 900), (5, 700), (9, 700)]);
}

#[test]
fn vote_classes_follow_the_vote_count() {
    assert_eq!(classify_vote(0), VoteClass::Noise);
    assert_eq!(classify_vote(1), VoteClass::Noise);
    assert_eq!(classify_vote(2), VoteClass::Weak);
    assert_eq!(classify_vote(3), VoteClass::Strong);
    assert_eq!(classify_vote(255), VoteClass::Strong);
}

#[test]
fn voting_rule_keeps_strong_or_weak_candidates_only() {
    let segments = vec![
        vec![(10, 900_000i64), (20, 800_000)],
        vec![(10, 950_000), (30, 700_000)],
        vec![(10, 880_000)],
        vec![(40, 990_000)],
    ];

    let merged = merge_segment_results(&segments);
    let survivors = select_survivor_ids(&merged, 5);

    assert_eq!(survivors, vec![10]);
}

#[test]
fn vote_aggregates_hold_exact_counts_scores_and_order() {
    let segments = vec![
        vec![(10, 900_000i64), (20, 800_000)],
        vec![(10, 950_000), (30, 700_000)],
        vec![(10, 880_000)],
        vec![(40, 990_000)],
    ];
    let merged = merge_segment_results(&segments);
    assert_eq!(merged.len(), 4);
    // Document 10: three first-rank hits.
    assert_eq!(merged[0].doc_id, 10);
    assert_eq!(merged[0].votes, 3);
    assert_eq!(merged[0].rank_score, 3_000_000);
    assert_eq!(merged[0].best_score, 950_000);
    // Single-segment documents ordered by rank score, then best score,
    // then ascending identifier.
    assert_eq!(merged[1].doc_id, 40);
    assert_eq!(merged[1].rank_score, 1_000_000);
    // 20 and 30 tie on rank score; the higher best score wins.
    assert_eq!(merged[2].doc_id, 20);
    assert_eq!(merged[2].rank_score, 500_000);
    assert_eq!(merged[2].best_score, 800_000);
    assert_eq!(merged[3].doc_id, 30);
    assert_eq!(merged[3].rank_score, 500_000);
    assert_eq!(merged[3].best_score, 700_000);
}

#[test]
fn document_in_all_segments_is_strong_and_survives() {
    let segments = vec![
        vec![(7, 500_000i64), (1, 400_000)],
        vec![(7, 450_000)],
        vec![(7, 480_000), (2, 300_000)],
        vec![(7, 520_000)],
    ];
    let merged = merge_segment_results(&segments);
    let top = &merged[0];
    assert_eq!(top.doc_id, 7);
    assert_eq!(classify_vote(top.votes), VoteClass::Strong);
    let survivors = select_survivor_ids(&merged, 5);
    assert!(survivors.contains(&7));
}

#[test]
fn degenerate_ranges_appear_when_dim_is_below_the_segment_count() {
    let ranges = query::segment_ranges(1);
    assert_eq!(ranges[0].start, 0);
    assert_eq!(ranges[0].end, 1);
    for r in &ranges[1..] {
        assert_eq!(r.start, r.end);
    }
    let q: Vec<i64> = vec![FIXED_ONE];
    let masked = query::build_segment_query(&q, ranges[1]);
    assert_eq!(masked, vec![0]);
}

#[test]
fn top_k_sort_keeps_everything_when_k_exceeds_the_length() {
    let mut hits: Vec<(u32, i64)> = vec![(3, 10), (1, 30), (2, 20)];
    sort_desc_take(&mut hits, 10);
    assert_eq!(hits, vec![(1, 30), (2, 20), (3, 10)]);
    let mut cut: Vec<(u32, i64)> = vec![(3, 10), (1, 30), (2, 20)];
    sort_desc_take(&mut cut, 0);
    assert!(cut.is_empty());
}
