use vstd::prelude::*;

verus! {

/// Fixed-point unit: the `i64` that stands for the real number 1.0 in every
/// embedding coordinate and score. A coordinate `x` stands for `x / FIXED_ONE`.
pub const FIXED_ONE: i64 = 1_000_000;

/// Largest coordinate magnitude accepted by the normalization routines; keeps
/// every intermediate square and product inside the machine integers.
pub const COORD_LIMIT: i64 = 0x4000_0000;

/// Longest vector the dot product accepts; keeps the product sum inside `i64`.
pub const DOT_LEN_LIMIT: usize = 0x40_0000;

/// Sum of squared coordinates of `v`, as a mathematical integer.
pub open spec fn norm_sq(v: Seq<i64>) -> int
    decreases v.len(),
{
    if v.len() == 0 {
        0
    } else {
        norm_sq(v.drop_last()) + v.last() * v.last()
    }
}

/// Inner product of `a` and `b`, as a mathematical integer.
pub open spec fn dot_sum(a: Seq<i64>, b: Seq<i64>) -> int
    recommends
        a.len() == b.len(),
    decreases a.len(),
{
    if a.len() == 0 || b.len() == 0 {
        0
    } else {
        dot_sum(a.drop_last(), b.drop_last()) + a.last() * b.last()
    }
}

/// The non-negative integer square root: the unique `r >= 0` with
/// `r * r <= n < (r + 1) * (r + 1)`.
pub open spec fn sqrt_floor(n: int) -> int
    recommends
        n >= 0,
{
    choose|r: int| r >= 0 && #[trigger] (r * r) <= n < (r + 1) * (r + 1)
}

/// `x / FIXED_ONE` rescaled to a denominator of `norm`, rounding toward zero.
pub open spec fn scale_div(x: int, norm: int) -> int
    recommends
        norm >= 1,
{
    if x >= 0 {
        (x * FIXED_ONE) / norm
    } else {
        -((-x * FIXED_ONE) / norm)
    }
}

/// There is at most one candidate for the integer square root.
pub proof fn lemma_sqrt_floor_unique(n: int, r: int)
    requires
        r >= 0,
        r * r <= n,
        n < (r + 1) * (r + 1),
    ensures
        sqrt_floor(n) == r,
{
    assert(r >= 0 && r * r <= n < (r + 1) * (r + 1));
    let s = sqrt_floor(n);
    assert(s >= 0 && s * s <= n < (s + 1) * (s + 1));
    if s < r {
        assert((s + 1) * (s + 1) <= r * r) by (nonlinear_arith)
            requires
                0 <= s < r,
        ;
    }
    if r < s {
        assert((r + 1) * (r + 1) <= s * s) by (nonlinear_arith)
            requires
                0 <= r < s,
        ;
    }
}

/// Every squared coordinate is bounded by the whole squared norm.
pub proof fn lemma_norm_sq_ge_square(v: Seq<i64>, i: int)
    requires
        0 <= i < v.len(),
    ensures
        norm_sq(v) >= v[i] * v[i],
        norm_sq(v) >= 0,
    decreases v.len(),
{
    lemma_norm_sq_nonneg(v);
    if v.len() > 0 {
        lemma_norm_sq_nonneg(v.drop_last());
        if i < v.len() - 1 {
            lemma_norm_sq_ge_square(v.drop_last(), i);
            assert(v.drop_last()[i] == v[i]);
            assert(v.last() * v.last() >= 0) by (nonlinear_arith);
        } else {
            assert(v.last() == v[i]);
        }
    }
}

/// The squared norm is never negative.
pub proof fn lemma_norm_sq_nonneg(v: Seq<i64>)
    ensures
        norm_sq(v) >= 0,
    decreases v.len(),
{
    if v.len() > 0 {
        lemma_norm_sq_nonneg(v.drop_last());
        assert(v.last() * v.last() >= 0) by (nonlinear_arith);
    }
}

/// Integer square root of `n` by bisection.
fn isqrt(n: u128) -> (r: u64)
    ensures
        (r as int) * (r as int) <= n < (r as int + 1) * (r as int + 1),
{
    let mut lo: u128 = 0;
    let mut hi: u128 = 1u128 << 64;
    proof {
        assert((1u128 << 64) == 0x1_0000_0000_0000_0000u128) by (bit_vector);
        assert(0x1_0000_0000_0000_0000int * 0x1_0000_0000_0000_0000int
            > u128::MAX as int);
    }
    while lo + 1 < hi
        invariant
            lo < hi,
            hi <= 0x1_0000_0000_0000_0000u128,
            (lo as int) * (lo as int) <= n,
            n < (hi as int) * (hi as int),
        decreases hi - lo,
    {
        let mid = lo + (hi - lo) / 2;
        assert(lo < mid < hi);
        assert((mid as int) * (mid as int) <= u128::MAX as int) by (nonlinear_arith)
            requires
                0 <= mid as int <= 0xffff_ffff_ffff_ffffu64 as int,
        ;
        if mid * mid <= n {
            lo = mid;
        } else {
            hi = mid;
        }
    }
    assert(hi == lo + 1);
    lo as u64
}

/// Exact squared L2 norm of `values`.
pub fn l2_norm_sq(values: &Vec<i64>) -> (r: u128)
    requires
        forall|i: int| 0 <= i < values@.len() ==> -COORD_LIMIT <= #[trigger] values@[i] <= COORD_LIMIT,
    ensures
        r == norm_sq(values@),
{
    let mut sum: u128 = 0;
    let n = values.len();
    proof {
        assert(values@.take(0) =~= Seq::<i64>::empty());
    }
    for i in 0..n
        invariant
            n == values@.len(),
            n as int <= 0xffff_ffff_ffff_ffffu64 as int,
            forall|k: int| 0 <= k < values@.len() ==> -COORD_LIMIT <= #[trigger] values@[k] <= COORD_LIMIT,
            sum == norm_sq(values@.take(i as int)),
            sum <= (i as int) * 0x1000_0000_0000_0000int,
    {
        let x = values[i];
        let ax: u64 = if x >= 0 {
            x as u64
        } else {
            (-x) as u64
        };
        proof {
            assert(0 <= (ax as int) * (ax as int) <= 0x1000_0000_0000_0000int) by (nonlinear_arith)
                requires
                    0 <= ax as int <= 0x4000_0000int,
            ;
        }
        let sq: u128 = (ax as u128) * (ax as u128);
        proof {
            assert((ax as int) * (ax as int) == (x as int) * (x as int)) by (nonlinear_arith)
                requires
                    ax as int == x as int || ax as int == -(x as int),
            ;
            let vt = values@.take(i as int + 1);
            assert(vt.drop_last() =~= values@.take(i as int));
            assert(vt.last() == values@[i as int]);
            assert((i as int) * 0x1000_0000_0000_0000int + 0x1000_0000_0000_0000int == (i as int
                + 1) * 0x1000_0000_0000_0000int) by (nonlinear_arith);
            assert((i as int + 1) * 0x1000_0000_0000_0000int <= 0xffff_ffff_ffff_ffffu64 as int
                * 0x1000_0000_0000_0000int) by (nonlinear_arith)
                requires
                    i as int + 1 <= 0xffff_ffff_ffff_ffffu64 as int,
            ;
        }
        sum = sum + sq;
    }
    proof {
        assert(values@.take(n as int) =~= values@);
    }
    sum
}

/// Fixed-point L2 norm of `values`: the integer square root of the exact
/// squared norm. Zero exactly when every coordinate is zero.
pub fn l2_norm(values: &Vec<i64>) -> (r: u64)
    requires
        forall|i: int| 0 <= i < values@.len() ==> -COORD_LIMIT <= #[trigger] values@[i] <= COORD_LIMIT,
    ensures
        r == sqrt_floor(norm_sq(values@)),
        (r as int) * (r as int) <= norm_sq(values@) < (r as int + 1) * (r as int + 1),
        (r == 0) <==> (norm_sq(values@) == 0),
{
    let sq = l2_norm_sq(values);
    let r = isqrt(sq);
    proof {
        lemma_sqrt_floor_unique(sq as int, r as int);
        if r == 0 {
            assert(norm_sq(values@) < (r as int + 1) * (r as int + 1));
            assert((r as int + 1) * (r as int + 1) == 1) by (nonlinear_arith)
                requires
                    r as int == 0,
            ;
            lemma_norm_sq_nonneg(values@);
        } else {
            assert((r as int) * (r as int) >= 1) by (nonlinear_arith)
                requires
                    r as int >= 1,
            ;
        }
    }
    r
}

/// Exact inner product of two equal-length coordinate vectors whose entries
/// lie within the fixed-point unit interval.
pub fn dot(left: &Vec<i64>, right: &Vec<i64>) -> (r: i64)
    requires
        left@.len() == right@.len(),
        left@.len() <= DOT_LEN_LIMIT,
        forall|i: int| 0 <= i < left@.len() ==> -FIXED_ONE <= #[trigger] left@[i] <= FIXED_ONE,
        forall|i: int| 0 <= i < right@.len() ==> -FIXED_ONE <= #[trigger] right@[i] <= FIXED_ONE,
    ensures
        r == dot_sum(left@, right@),
{
    let mut acc: i128 = 0;
    let n = left.len();
    proof {
        assert(left@.take(0) =~= Seq::<i64>::empty());
    }
    for i in 0..n
        invariant
            n == left@.len(),
            left@.len() == right@.len(),
            n <= DOT_LEN_LIMIT,
            forall|k: int| 0 <= k < left@.len() ==> -FIXED_ONE <= #[trigger] left@[k] <= FIXED_ONE,
            forall|k: int| 0 <= k < right@.len() ==> -FIXED_ONE <= #[trigger] right@[k] <= FIXED_ONE,
            acc == dot_sum(left@.take(i as int), right@.take(i as int)),
            -((i as int) * 1_000_000_000_000int) <= acc as int <= (i as int)
                * 1_000_000_000_000int,
    {
        proof {
            assert(-1_000_000_000_000int <= (left@[i as int] as int) * (right@[i as int] as int)
                <= 1_000_000_000_000int) by (nonlinear_arith)
                requires
                    -FIXED_ONE <= left@[i as int] as int <= FIXED_ONE,
                    -FIXED_ONE <= right@[i as int] as int <= FIXED_ONE,
                    FIXED_ONE == 1_000_000,
            ;
        }
        let p: i128 = (left[i] as i128) * (right[i] as i128);
        proof {
            let lt = left@.take(i as int + 1);
            let rt = right@.take(i as int + 1);
            assert(lt.drop_last() =~= left@.take(i as int));
            assert(rt.drop_last() =~= right@.take(i as int));
            assert(lt.last() == left@[i as int]);
            assert(rt.last() == right@[i as int]);
            assert((i as int) * 1_000_000_000_000int + 1_000_000_000_000int == (i as int + 1)
                * 1_000_000_000_000int) by (nonlinear_arith);
            assert((i as int + 1) * 1_000_000_000_000int <= 0x40_0000int * 1_000_000_000_000int)
                by (nonlinear_arith)
                requires
                    i as int + 1 <= 0x40_0000int,
            ;
        }
        acc = acc + p;
    }
    proof {
        assert(left@.take(n as int) =~= left@);
        assert(right@.take(n as int) =~= right@);
        assert(0x40_0000int * 1_000_000_000_000int < i64::MAX as int);
    }
    acc as i64
}

/// Rescales `values` so that its L2 norm becomes (up to rounding) `FIXED_ONE`,
/// i.e. the vector is mapped onto the fixed-point unit sphere. Returns `None`,
/// leaving the vector unchanged, exactly when the vector is all zeros.
pub fn normalize_in_place(values: &mut Vec<i64>) -> (r: Option<()>)
    requires
        forall|i: int| 0 <= i < old(values)@.len() ==> -COORD_LIMIT <= #[trigger] old(values)@[i] <= COORD_LIMIT,
    ensures
        r is None ==> final(values)@ == old(values)@ && norm_sq(old(values)@) == 0,
        r is Some ==> {
            &&& norm_sq(old(values)@) != 0
            &&& final(values)@.len() == old(values)@.len()
            &&& forall|i: int|
                0 <= i < old(values)@.len() ==> #[trigger] final(values)@[i] == scale_div(
                    old(values)@[i] as int,
                    sqrt_floor(norm_sq(old(values)@)),
                )
            &&& forall|i: int|
                0 <= i < old(values)@.len() ==> -FIXED_ONE <= #[trigger] final(values)@[i] <= FIXED_ONE
        },
{
    let nrm = l2_norm(values);
    if nrm == 0 {
        return None;
    }
    let ghost orig = values@;
    let ghost g_nrm = sqrt_floor(norm_sq(orig));
    proof {
        lemma_norm_sq_nonneg(orig);
    }
    let len = values.len();
    for i in 0..len
        invariant
            len == values@.len(),
            values@.len() == orig.len(),
            nrm as int == g_nrm,
            1 <= nrm as int,
            (g_nrm) * (g_nrm) <= norm_sq(orig) < (g_nrm + 1) * (g_nrm + 1),
            forall|k: int| 0 <= k < orig.len() ==> -COORD_LIMIT <= #[trigger] orig[k] <= COORD_LIMIT,
            forall|k: int| i as int <= k < orig.len() ==> #[trigger] values@[k] == orig[k],
            forall|k: int| 0 <= k < i as int ==> #[trigger] values@[k] == scale_div(orig[k] as int, g_nrm),
            forall|k: int| 0 <= k < i as int ==> -FIXED_ONE <= #[trigger] values@[k] <= FIXED_ONE,
    {
        let x = values[i];
        let ax: u64 = if x >= 0 {
            x as u64
        } else {
            (-x) as u64
        };
        proof {
            assert((ax as int) * (FIXED_ONE as int) <= 0x4000_0000int * 1_000_000int)
                by (nonlinear_arith)
                requires
                    0 <= ax as int <= 0x4000_0000int,
                    FIXED_ONE == 1_000_000,
            ;
        }
        let scaled: u128 = (ax as u128) * (FIXED_ONE as u128);
        let q: u128 = scaled / (nrm as u128);
        proof {
            lemma_norm_sq_ge_square(orig, i as int);
            assert(ax as int <= g_nrm) by {
                if ax as int > g_nrm {
                    assert((g_nrm + 1) * (g_nrm + 1) <= (ax as int) * (ax as int))
                        by (nonlinear_arith)
                        requires
                            0 <= g_nrm + 1 <= ax as int,
                    ;
                    assert((ax as int) * (ax as int) == (orig[i as int] as int) * (orig[i
                        as int] as int)) by (nonlinear_arith)
                        requires
                            ax as int == orig[i as int] as int || ax as int == -(orig[i
                                as int] as int),
                    ;
                }
            };
            vstd::arithmetic::div_mod::lemma_div_is_ordered(
                (ax as int) * (FIXED_ONE as int),
                g_nrm * (FIXED_ONE as int),
                g_nrm,
            );
            vstd::arithmetic::div_mod::lemma_div_multiples_vanish(FIXED_ONE as int, g_nrm);
            assert((ax as int) * (FIXED_ONE as int) <= g_nrm * (FIXED_ONE as int))
                by (nonlinear_arith)
                requires
                    0 <= ax as int <= g_nrm,
                    FIXED_ONE == 1_000_000,
            ;
            assert(g_nrm * (FIXED_ONE as int) == (FIXED_ONE as int) * g_nrm) by (nonlinear_arith);
            assert(q as int <= FIXED_ONE as int);
        }
        let y: i64 = if x >= 0 {
            q as i64
        } else {
            -(q as i64)
        };
        values.set(i, y);
    }
    Some(())
}

} // verus!
