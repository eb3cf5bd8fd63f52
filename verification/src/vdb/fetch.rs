use vstd::prelude::*;

use crate::engine::errors::EngineError;
use crate::math::linalg::FIXED_ONE;
use crate::vdb::adapter::{DocId, DocVector, VdbAdapter};

verus! {

/// Fetches the stored embeddings of `doc_ids` through the retrieval port.
pub fn fetch_vectors<A: VdbAdapter>(adapter: &A, doc_ids: &Vec<DocId>) -> (r: Result<
    Vec<DocVector>,
    String,
>)
    ensures
        r matches Ok(vs) ==> {
            &&& vs@.len() == doc_ids@.len()
            &&& forall|i: int| 0 <= i < vs@.len() ==> (#[trigger] vs@[i]).id == doc_ids@[i]
            &&& forall|i: int|
                0 <= i < vs@.len() ==> (#[trigger] vs@[i]).vector@.len() == adapter.spec_dim()
            &&& forall|i: int, k: int|
                0 <= i < vs@.len() && 0 <= k < (#[trigger] vs@[i]).vector@.len() ==> -FIXED_ONE
                    <= #[trigger] vs@[i].vector@[k] <= FIXED_ONE
        },
{
    adapter.fetch_vectors(doc_ids)
}

/// Sum of the `k`-th coordinates over all vectors.
pub open spec fn coord_sum(vectors: Seq<DocVector>, k: int) -> int
    decreases vectors.len(),
{
    if vectors.len() == 0 {
        0
    } else {
        coord_sum(vectors.drop_last(), k) + vectors.last().vector@[k]
    }
}

/// Signed division rounding toward zero.
pub open spec fn tz_div(x: int, n: int) -> int
    recommends
        n >= 1,
{
    if x >= 0 {
        x / n
    } else {
        -((-x) / n)
    }
}

/// The `k`-th coordinate of the arithmetic-mean centroid.
pub open spec fn centroid_val(vectors: Seq<DocVector>, k: int) -> int {
    tz_div(coord_sum(vectors, k), vectors.len() as int)
}

/// A shared coordinate bound of `c` bounds every coordinate sum by `len * c`.
pub proof fn lemma_coord_sum_bound(vectors: Seq<DocVector>, k: int, c: int)
    requires
        c >= 0,
        forall|j: int|
            0 <= j < vectors.len() ==> k < (#[trigger] vectors[j]).vector@.len() && -c <= vectors[j].vector@[k] <= c,
        k >= 0,
    ensures
        -(vectors.len() * c) <= coord_sum(vectors, k) <= vectors.len() * c,
    decreases vectors.len(),
{
    if vectors.len() > 0 {
        lemma_coord_sum_bound(vectors.drop_last(), k, c);
        assert((vectors.len() - 1) * c + c == vectors.len() * c) by (nonlinear_arith);
    }
}

/// The component-wise arithmetic mean of the survivor embeddings, each
/// coordinate rounded toward zero. Fails on an empty list and on any
/// vector whose length differs from `dim`.
pub fn centroid(vectors: &Vec<DocVector>, dim: usize) -> (r: Result<Vec<i64>, EngineError>)
    ensures
        vectors@.len() == 0 <==> r == Err::<Vec<i64>, EngineError>(EngineError::EmptySurvivorSet),
        (vectors@.len() > 0 && exists|j: int|
            0 <= j < vectors@.len() && (#[trigger] vectors@[j]).vector@.len() != dim) <==> r == Err::<Vec<i64>, EngineError>(EngineError::DimensionMismatch),
        r matches Err(e) ==> (e is EmptySurvivorSet || e is DimensionMismatch),
        r matches Ok(c) ==> {
            &&& vectors@.len() > 0
            &&& forall|j: int| 0 <= j < vectors@.len() ==> (#[trigger] vectors@[j]).vector@.len() == dim
            &&& c@.len() == dim
            &&& forall|k: int| 0 <= k < dim ==> #[trigger] c@[k] == centroid_val(vectors@, k)
            &&& (forall|j: int, k: int|
                0 <= j < vectors@.len() && 0 <= k < dim ==> -FIXED_ONE <= (
                #[trigger] vectors@[j].vector@[k]) <= FIXED_ONE) ==> forall|k: int|
                0 <= k < dim ==> -FIXED_ONE <= #[trigger] c@[k] <= FIXED_ONE
        },
{
    let nv = vectors.len();
    if nv == 0 {
        return Err(EngineError::EmptySurvivorSet);
    }
    for j in 0..nv
        invariant
            nv == vectors@.len(),
            forall|x: int| 0 <= x < j as int ==> (#[trigger] vectors@[x]).vector@.len() == dim,
    {
        if vectors.get(j).unwrap().vector.len() != dim {
            return Err(EngineError::DimensionMismatch);
        }
    }
    let mut sums: Vec<i128> = Vec::new();
    for k in 0..dim
        invariant
            sums@.len() == k,
            forall|x: int| 0 <= x < k as int ==> #[trigger] sums@[x] == 0int,
    {
        sums.push(0);
    }
    let ghost vrows = vectors@;
    for j in 0..nv
        invariant
            nv == vectors@.len(),
            vrows == vectors@,
            sums@.len() == dim,
            forall|x: int| 0 <= x < vectors@.len() ==> (#[trigger] vectors@[x]).vector@.len() == dim,
            forall|k: int|
                0 <= k < dim ==> #[trigger] sums@[k] == coord_sum(vrows.take(j as int), k),
            forall|k: int|
                0 <= k < dim ==> -((j as int) * (i64::MAX as int + 1)) <= #[trigger] sums@[k] <= (
                j as int) * (i64::MAX as int + 1),
    {
        let doc = vectors.get(j).unwrap();
        let ghost sums_pre = sums@;
        for k in 0..dim
            invariant
                nv == vectors@.len(),
                vrows == vectors@,
                0 <= j < nv,
                doc == vectors@[j as int],
                doc.vector@.len() == dim,
                sums@.len() == dim,
                sums_pre.len() == dim,
                forall|x: int| k as int <= x < dim ==> #[trigger] sums@[x] == sums_pre[x],
                forall|x: int|
                    0 <= x < dim ==> #[trigger] sums_pre[x] == coord_sum(vrows.take(j as int), x),
                forall|x: int|
                    0 <= x < dim ==> -((j as int) * (i64::MAX as int + 1)) <= #[trigger] sums_pre[x]
                        <= (j as int) * (i64::MAX as int + 1),
                forall|x: int|
                    0 <= x < k as int ==> #[trigger] sums@[x] == coord_sum(
                        vrows.take(j as int + 1),
                        x,
                    ),
                forall|x: int|
                    0 <= x < k as int ==> -((j as int + 1) * (i64::MAX as int + 1))
                        <= #[trigger] sums@[x] <= (j as int + 1) * (i64::MAX as int + 1),
        {
            let prev = *sums.get(k).unwrap();
            let add = *doc.vector.get(k).unwrap();
            proof {
                let t = vrows.take(j as int + 1);
                assert(t.drop_last() =~= vrows.take(j as int));
                assert(t.last() == vrows[j as int]);
                assert((j as int) * (i64::MAX as int + 1) + (i64::MAX as int + 1) == (j as int + 1)
                    * (i64::MAX as int + 1)) by (nonlinear_arith);
                assert((j as int + 1) * (i64::MAX as int + 1) <= 0x1_0000_0000_0000_0000int * (
                i64::MAX as int + 1)) by (nonlinear_arith)
                    requires
                        j as int + 1 <= 0x1_0000_0000_0000_0000int,
                ;
            }
            sums.set(k, prev + (add as i128));
        }
    }
    proof {
        assert(vrows.take(nv as int) =~= vrows);
    }
    let mut center: Vec<i64> = Vec::new();
    for k in 0..dim
        invariant
            nv == vectors@.len(),
            nv >= 1,
            vrows == vectors@,
            sums@.len() == dim,
            forall|x: int| 0 <= x < dim ==> #[trigger] sums@[x] == coord_sum(vrows, x),
            forall|x: int|
                0 <= x < dim ==> -((nv as int) * (i64::MAX as int + 1)) <= #[trigger] sums@[x] <= (
                nv as int) * (i64::MAX as int + 1),
            forall|x: int| 0 <= x < vectors@.len() ==> (#[trigger] vectors@[x]).vector@.len() == dim,
            center@.len() == k,
            forall|x: int| 0 <= x < k as int ==> #[trigger] center@[x] == centroid_val(vrows, x),
            forall|x: int|
                0 <= x < k as int ==> -(i64::MAX as int + 1) <= #[trigger] center@[x] <= i64::MAX,
    {
        let s = *sums.get(k).unwrap();
        let neg = s < 0;
        let mag: u128 = if neg {
            (-s) as u128
        } else {
            s as u128
        };
        proof {
            assert((nv as int) * (i64::MAX as int + 1) <= 0x1_0000_0000_0000_0000int * (i64::MAX
                as int + 1)) by (nonlinear_arith)
                requires
                    nv as int <= 0x1_0000_0000_0000_0000int,
            ;
        }
        let q: u128 = mag / (nv as u128);
        proof {
            assert(mag as int <= (nv as int) * (i64::MAX as int + 1));
            vstd::arithmetic::div_mod::lemma_div_is_ordered(
                mag as int,
                (nv as int) * (i64::MAX as int + 1),
                nv as int,
            );
            vstd::arithmetic::div_mod::lemma_div_multiples_vanish(i64::MAX as int + 1, nv as int);
            assert((nv as int) * (i64::MAX as int + 1) == (i64::MAX as int + 1) * (nv as int))
                by (nonlinear_arith);
            assert(q as int <= i64::MAX as int + 1);
            if !neg {
                lemma_sum_elem_bound(vrows, k as int, nv as int);
                assert(mag as int <= (nv as int) * (i64::MAX as int));
                vstd::arithmetic::div_mod::lemma_div_is_ordered(
                    mag as int,
                    (nv as int) * (i64::MAX as int),
                    nv as int,
                );
                vstd::arithmetic::div_mod::lemma_div_multiples_vanish(i64::MAX as int, nv as int);
                assert((nv as int) * (i64::MAX as int) == (i64::MAX as int) * (nv as int))
                    by (nonlinear_arith);
                assert(q as int <= i64::MAX as int);
            }
        }
        let val: i64 = if neg {
            (-(q as i128)) as i64
        } else {
            q as i64
        };
        center.push(val);
    }
    proof {
        assert forall|k: int|
            (forall|j: int, x: int|
                0 <= j < vectors@.len() && 0 <= x < dim ==> -FIXED_ONE <= (
                #[trigger] vectors@[j].vector@[x]) <= FIXED_ONE) && 0 <= k < dim implies -FIXED_ONE
            <= #[trigger] center@[k] <= FIXED_ONE by {
            lemma_coord_sum_bound(vrows, k, FIXED_ONE as int);
            lemma_tz_div_bound(coord_sum(vrows, k), nv as int, FIXED_ONE as int);
        }
    }
    Ok(center)
}

/// Positive coordinate sums are bounded by `len * i64::MAX`.
proof fn lemma_sum_elem_bound(vectors: Seq<DocVector>, k: int, n: int)
    requires
        n == vectors.len(),
    ensures
        coord_sum(vectors, k) <= n * (i64::MAX as int),
    decreases n,
{
    if n > 0 {
        lemma_sum_elem_bound(vectors.drop_last(), k, n - 1);
        assert((n - 1) * (i64::MAX as int) + i64::MAX as int == n * (i64::MAX as int))
            by (nonlinear_arith);
    }
}

/// A sum bounded by `n * c` has a mean bounded by `c`.
pub proof fn lemma_tz_div_bound(x: int, n: int, c: int)
    requires
        n >= 1,
        c >= 0,
        -(n * c) <= x <= n * c,
    ensures
        -c <= tz_div(x, n) <= c,
{
    vstd::arithmetic::div_mod::lemma_div_multiples_vanish(c, n);
    assert(n * c == c * n) by (nonlinear_arith);
    if x >= 0 {
        vstd::arithmetic::div_mod::lemma_div_is_ordered(x, n * c, n);
        vstd::arithmetic::div_mod::lemma_div_pos_is_pos(x, n);
    } else {
        vstd::arithmetic::div_mod::lemma_div_is_ordered(-x, n * c, n);
        vstd::arithmetic::div_mod::lemma_div_pos_is_pos(-x, n);
    }
}

} // verus!
