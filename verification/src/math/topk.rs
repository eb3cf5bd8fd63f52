use vstd::prelude::*;

use vstd::relations::{sorted_by, total_ordering};
use vstd::seq_lib::lemma_sorted_unique;

use crate::vdb::adapter::ScoredDoc;

verus! {

/// Ranking order on scored documents: higher score first, equal scores by
/// ascending document identifier. A total order, so every ranked list of a
/// given multiset of hits is unique — ranking is deterministic.
pub open spec fn scored_leq(a: ScoredDoc, b: ScoredDoc) -> bool {
    a.1 > b.1 || (a.1 == b.1 && a.0 <= b.0)
}

/// `scored_leq` as a first-class relation, for `Seq::sort_by`.
pub open spec fn scored_order() -> spec_fn(ScoredDoc, ScoredDoc) -> bool {
    |a: ScoredDoc, b: ScoredDoc| scored_leq(a, b)
}

/// The ranking order is a total order.
pub proof fn lemma_scored_order_total()
    ensures
        total_ordering(scored_order()),
{
}

/// The ranked list of `s`, truncated to `k` entries: the unique reordering
/// of `s` that is sorted best-first with ties broken by ascending
/// identifier, keeping only the first `k` elements.
pub open spec fn ranked_take(s: Seq<ScoredDoc>, k: int) -> Seq<ScoredDoc> {
    s.sort_by(scored_order()).take(if s.len() <= k {
        s.len() as int
    } else {
        k
    })
}

/// Sorting is a function of the contents alone: two hit lists holding the
/// same scored documents (in any order) rank identically — repeated sorts
/// of equal-score runs cannot diverge.
pub proof fn lemma_ranking_deterministic(a: Seq<ScoredDoc>, b: Seq<ScoredDoc>)
    requires
        a.to_multiset() == b.to_multiset(),
    ensures
        a.sort_by(scored_order()) == b.sort_by(scored_order()),
{
    lemma_scored_order_total();
    a.lemma_sort_by_ensures(scored_order());
    b.lemma_sort_by_ensures(scored_order());
    lemma_sorted_unique(a.sort_by(scored_order()), b.sort_by(scored_order()), scored_order());
    assert(a.sort_by(scored_order()) =~= b.sort_by(scored_order()));
}

/// Exec decision of the ranking order.
fn scored_le(a: ScoredDoc, b: ScoredDoc) -> (r: bool)
    ensures
        r == scored_leq(a, b),
{
    a.1 > b.1 || (a.1 == b.1 && a.0 <= b.0)
}

/// Within a prefix sorted under `leq`, any earlier element precedes any
/// later one.
pub proof fn lemma_sorted_prefix_pair<T>(s: Seq<T>, leq: spec_fn(T, T) -> bool, n: int, a: int, b: int)
    requires
        sorted_by(s.take(n), leq),
        0 <= a < b < n <= s.len(),
    ensures
        leq(s[a], s[b]),
{
    let t = s.take(n);
    assert(t[a] == s[a]);
    assert(t[b] == s[b]);
    assert(leq(t[a], t[b]));
}

/// Inserting an element anywhere adds exactly it to the contents.
pub proof fn lemma_insert_multiset<T>(s: Seq<T>, i: int, x: T)
    requires
        0 <= i <= s.len(),
    ensures
        s.insert(i, x).to_multiset() == s.to_multiset().insert(x),
{
    broadcast use vstd::seq_lib::group_to_multiset_ensures;

    let t = s.insert(i, x);
    assert(t =~= s.take(i).push(x) + s.skip(i));
    vstd::seq_lib::lemma_multiset_commutative(s.take(i).push(x), s.skip(i));
    vstd::seq_lib::lemma_multiset_commutative(s.take(i), s.skip(i));
    assert(s.take(i) + s.skip(i) =~= s);
    assert(t.to_multiset() =~= s.to_multiset().insert(x));
}

/// Sorts `scored` best-first under the deterministic ranking order and keeps
/// only the first `top_k` entries.
pub fn sort_desc_take(scored: &mut Vec<ScoredDoc>, top_k: usize)
    ensures
        final(scored)@ == ranked_take(old(scored)@, top_k as int),
{
    let ghost orig = scored@;
    proof {
        lemma_scored_order_total();
        orig.lemma_sort_by_ensures(scored_order());
    }
    let n = scored.len();
    if n > 1 {
        let mut i: usize = 1;
        while i < n
            invariant
                1 <= i <= n,
                n == scored@.len(),
                scored@.len() == orig.len(),
                scored@.to_multiset() == orig.to_multiset(),
                sorted_by(scored@.take(i as int), scored_order()),
            decreases n - i,
        {
            let x = *scored.get(i).unwrap();
            let ghost s0 = scored@;
            let mut p: usize = i;
            loop
                invariant
                    0 <= p <= i < n,
                    n == scored@.len(),
                    scored@ == s0,
                    forall|k: int| p <= k < i ==> scored_leq(x, #[trigger] scored@[k]),
                    x == scored@[i as int],
                    sorted_by(scored@.take(i as int), scored_order()),
                ensures
                    0 <= p <= i,
                    scored@ == s0,
                    forall|k: int| p <= k < i ==> scored_leq(x, #[trigger] scored@[k]),
                    forall|k: int| 0 <= k < p ==> scored_leq(#[trigger] scored@[k], x),
                decreases p,
            {
                if p == 0 {
                    break ;
                }
                let prev = *scored.get(p - 1).unwrap();
                if scored_le(prev, x) {
                    proof {
                        assert forall|k: int| 0 <= k < p implies scored_leq(
                            #[trigger] scored@[k],
                            x,
                        ) by {
                            if k < p - 1 {
                                lemma_sorted_prefix_pair(scored@, scored_order(), i as int, k, p - 1);
                            }
                        }
                    }
                    break ;
                }
                proof {
                    assert(scored_leq(x, scored@[p - 1]));
                }
                p = p - 1;
            }
            let y = scored.remove(i);
            scored.insert(p, y);
            proof {
                let s1 = s0.remove(i as int);
                let s2 = s1.insert(p as int, x);
                assert(scored@ == s2);
                broadcast use vstd::seq_lib::group_to_multiset_ensures;

                lemma_insert_multiset(s1, p as int, x);
                assert(s2.to_multiset() =~= s0.to_multiset());
                assert forall|a: int, b: int|
                    0 <= a < b < i as int + 1 implies scored_leq(
                    #[trigger] s2[a],
                    #[trigger] s2[b],
                ) by {
                    assert(forall|k: int| 0 <= k < i ==> s1[k] == s0[k]);
                    assert(forall|k: int|
                        0 <= k < p ==> #[trigger] s2[k] == s1[k] && s2[k] == s0[k]);
                    assert(s2[p as int] == x);
                    assert(forall|k: int| p < k <= i ==> #[trigger] s2[k] == s1[k - 1]);
                    if b < p {
                        lemma_sorted_prefix_pair(s0, scored_order(), i as int, a, b);
                        assert(scored_leq(s2[a], s2[b]));
                    } else if b == p {
                        assert(scored_leq(s0[a], x));
                    } else {
                        if a < p {
                            assert(scored_leq(s0[a], x));
                            assert(scored_leq(x, s0[b - 1]));
                        } else if a == p {
                            assert(scored_leq(x, s0[b - 1]));
                        } else {
                            lemma_sorted_prefix_pair(s0, scored_order(), i as int, a - 1, b - 1);
                            assert(scored_leq(s0[a - 1], s0[b - 1]));
                        }
                    }
                }
                assert(sorted_by(s2.take(i as int + 1), scored_order()));
            }
            i = i + 1;
        }
        proof {
            assert(scored@.take(n as int) =~= scored@);
            lemma_sorted_unique(scored@, orig.sort_by(scored_order()), scored_order());
            assert(scored@ =~= orig.sort_by(scored_order()));
        }
    } else {
        proof {
            lemma_sorted_unique(scored@, orig.sort_by(scored_order()), scored_order());
            assert(scored@ =~= orig.sort_by(scored_order()));
        }
    }
    if scored.len() > top_k {
        scored.truncate(top_k);
    }
    proof {
        if orig.len() <= top_k as int {
            assert(scored@ =~= ranked_take(orig, top_k as int));
        } else {
            assert(scored@ =~= ranked_take(orig, top_k as int));
        }
    }
}

} // verus!
