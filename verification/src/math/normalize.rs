use vstd::prelude::*;

use crate::math::linalg;
use crate::math::linalg::{COORD_LIMIT, FIXED_ONE};

verus! {

/// Unit-sphere copy of `values`: the same direction, rescaled so that the
/// fixed-point L2 norm becomes `FIXED_ONE` (up to rounding). Returns `None`
/// exactly when `values` is the all-zero vector.
pub fn normalized_copy(values: &Vec<i64>) -> (r: Option<Vec<i64>>)
    requires
        forall|i: int| 0 <= i < values@.len() ==> -COORD_LIMIT <= #[trigger] values@[i] <= COORD_LIMIT,
    ensures
        r is None ==> linalg::norm_sq(values@) == 0,
        r matches Some(nv) ==> {
            &&& linalg::norm_sq(values@) != 0
            &&& nv@.len() == values@.len()
            &&& forall|i: int|
                0 <= i < values@.len() ==> #[trigger] nv@[i] == linalg::scale_div(
                    values@[i] as int,
                    linalg::sqrt_floor(linalg::norm_sq(values@)),
                )
            &&& forall|i: int| 0 <= i < nv@.len() ==> -FIXED_ONE <= #[trigger] nv@[i] <= FIXED_ONE
        },
{
    let mut normalized: Vec<i64> = Vec::new();
    let n = values.len();
    for i in 0..n
        invariant
            n == values@.len(),
            normalized@ == values@.take(i as int),
    {
        normalized.push(values[i]);
        proof {
            assert(normalized@ =~= values@.take(i as int + 1));
        }
    }
    proof {
        assert(values@.take(n as int) =~= values@);
    }
    match linalg::normalize_in_place(&mut normalized) {
        Some(_) => Some(normalized),
        None => None,
    }
}

/// Normalization is idempotent on the unit sphere: a vector whose squared
/// norm is exactly `FIXED_ONE * FIXED_ONE` is returned coordinate for
/// coordinate unchanged.
pub proof fn lemma_normalize_unit_idempotent(v: Seq<i64>)
    requires
        linalg::norm_sq(v) == (FIXED_ONE as int) * (FIXED_ONE as int),
    ensures
        forall|i: int|
            0 <= i < v.len() ==> #[trigger] linalg::scale_div(
                v[i] as int,
                linalg::sqrt_floor(linalg::norm_sq(v)),
            ) == v[i],
{
    let s = FIXED_ONE as int;
    assert(s * s < (s + 1) * (s + 1)) by (nonlinear_arith)
        requires
            s >= 0,
    ;
    linalg::lemma_sqrt_floor_unique(linalg::norm_sq(v), s);
    assert forall|i: int| 0 <= i < v.len() implies #[trigger] linalg::scale_div(
        v[i] as int,
        linalg::sqrt_floor(linalg::norm_sq(v)),
    ) == v[i] by {
        let x = v[i] as int;
        if x >= 0 {
            vstd::arithmetic::div_mod::lemma_div_multiples_vanish(x, s);
            assert(x * s == s * x) by (nonlinear_arith);
        } else {
            vstd::arithmetic::div_mod::lemma_div_multiples_vanish(-x, s);
            assert(-x * s == s * -x) by (nonlinear_arith);
        }
    }
}

} // verus!
