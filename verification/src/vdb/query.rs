use vstd::prelude::*;

verus! {

/// Number of contiguous coordinate segments a query vector is split into.
pub const SEGMENT_COUNT: usize = 4;

/// Per-segment search depth.
pub const SEGMENT_TOP_K: usize = 100;

/// Upper bound on the survivor set fed into PRF reconstruction.
pub const SURVIVOR_COUNT: usize = 5;

/// PRF blend weight of the original query, as the exact fraction
/// `PRF_ALPHA_NUM / PRF_ALPHA_DEN` (0.7 original, 0.3 survivor centroid).
pub const PRF_ALPHA_NUM: i64 = 7;

/// Denominator of the PRF blend weight.
pub const PRF_ALPHA_DEN: i64 = 10;

/// Hard cap on rerank rounds.
pub const MAX_REFINEMENT_ROUNDS: usize = 8;

/// Half-open coordinate interval `[start, end)` of one query segment.
#[derive(Clone, Copy, Debug)]
pub struct SegmentRange {
    pub start: usize,
    pub end: usize,
}

/// The length every returned range must have: the base length
/// `dim / SEGMENT_COUNT`, plus one extra coordinate for the first
/// `dim % SEGMENT_COUNT` ranges.
pub open spec fn segment_len(dim: int, idx: int) -> int {
    dim / (SEGMENT_COUNT as int) + if idx < dim % (SEGMENT_COUNT as int) {
        1int
    } else {
        0int
    }
}

/// Splits `[0, dim)` into exactly `SEGMENT_COUNT` contiguous, gap-free,
/// non-overlapping ranges whose lengths differ by at most one coordinate:
/// any remainder goes to the earliest ranges. For `dim` divisible by
/// `SEGMENT_COUNT` all ranges have equal length.
pub fn segment_ranges(dim: usize) -> (r: Vec<SegmentRange>)
    ensures
        r@.len() == SEGMENT_COUNT,
        r@[0].start == 0,
        r@[SEGMENT_COUNT - 1].end == dim,
        forall|i: int| 0 <= i < SEGMENT_COUNT - 1 ==> (#[trigger] r@[i]).end == r@[i + 1].start,
        forall|i: int| 0 <= i < SEGMENT_COUNT ==> (#[trigger] r@[i]).start <= r@[i].end <= dim,
        forall|i: int|
            0 <= i < SEGMENT_COUNT ==> (#[trigger] r@[i]).end - r@[i].start == segment_len(
                dim as int,
                i,
            ),
        dim as int % (SEGMENT_COUNT as int) == 0 ==> forall|i: int|
            0 <= i < SEGMENT_COUNT ==> (#[trigger] r@[i]).end - r@[i].start == dim as int / (
            SEGMENT_COUNT as int),
{
    let mut ranges: Vec<SegmentRange> = Vec::new();
    let base_len = dim / SEGMENT_COUNT;
    let remainder = dim % SEGMENT_COUNT;
    proof {
        vstd::arithmetic::div_mod::lemma_fundamental_div_mod(dim as int, SEGMENT_COUNT as int);
    }
    let mut start: usize = 0;
    for idx in 0..SEGMENT_COUNT
        invariant
            base_len == dim as int / (SEGMENT_COUNT as int),
            remainder == dim as int % (SEGMENT_COUNT as int),
            dim as int == (SEGMENT_COUNT as int) * (base_len as int) + remainder as int,
            0 <= remainder < SEGMENT_COUNT,
            ranges@.len() == idx,
            start as int == (idx as int) * (base_len as int) + if idx <= remainder {
                idx as int
            } else {
                remainder as int
            },
            start <= dim,
            idx > 0 ==> ranges@[idx - 1].end == start,
            forall|i: int| 0 <= i < idx ==> (#[trigger] ranges@[i]).start <= ranges@[i].end <= dim,
            forall|i: int|
                0 <= i < idx as int - 1 ==> (#[trigger] ranges@[i]).end == ranges@[i + 1].start,
            idx > 0 ==> ranges@[0].start == 0,
            forall|i: int|
                0 <= i < idx ==> (#[trigger] ranges@[i]).end - ranges@[i].start == segment_len(
                    dim as int,
                    i,
                ),
    {
        let extra: usize = if idx < remainder {
            1
        } else {
            0
        };
        proof {
            assert((idx as int + 1) * (base_len as int) == (idx as int) * (base_len as int)
                + base_len as int) by (nonlinear_arith);
            assert((idx as int) * (base_len as int) + if (idx as int) <= (remainder as int) {
                idx as int
            } else {
                remainder as int
            } + base_len as int + extra as int <= (SEGMENT_COUNT as int) * (base_len as int)
                + remainder as int) by (nonlinear_arith)
                requires
                    0 <= (idx as int) < (SEGMENT_COUNT as int),
                    0 <= (remainder as int) < (SEGMENT_COUNT as int),
                    0 <= base_len as int,
                    extra as int == if (idx as int) < (remainder as int) {
                        1int
                    } else {
                        0int
                    },
            ;
        }
        let end = start + base_len + extra;
        ranges.push(SegmentRange { start, end });
        start = end;
    }
    ranges
}

/// The masked per-segment query: equal to `query` inside `[start, end)` and
/// zero everywhere else. A degenerate empty range yields the all-zero vector.
pub fn build_segment_query(query: &Vec<i64>, segment: SegmentRange) -> (r: Vec<i64>)
    requires
        segment.start < segment.end ==> segment.end <= query@.len(),
    ensures
        r@.len() == query@.len(),
        forall|i: int|
            0 <= i < query@.len() ==> #[trigger] r@[i] == if segment.start <= i < segment.end {
                query@[i]
            } else {
                0i64
            },
{
    let mut projected: Vec<i64> = Vec::new();
    let n = query.len();
    for i in 0..n
        invariant
            n == query@.len(),
            projected@.len() == i,
            forall|k: int|
                0 <= k < i as int ==> #[trigger] projected@[k] == if segment.start <= k
                    < segment.end {
                    query@[k]
                } else {
                    0i64
                },
    {
        if segment.start <= i && i < segment.end {
            projected.push(query[i]);
        } else {
            projected.push(0);
        }
    }
    projected
}

} // verus!
