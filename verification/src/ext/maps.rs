use vstd::prelude::*;

verus! {

// `hashbrown::HashMap` cannot be declared to Verus directly: its allocator
// type parameter and the `Allocator` bound on it are not nameable from here.
// Each map the engine needs is therefore held in a private field of an
// opaque struct, described to the proofs only through its contents view
// below and the method wrappers that state what each call does to it.

/// Vote aggregate held per document while segment results are merged:
/// saturating vote count, saturating fixed-point rank-score sum, and the
/// best raw score seen so far.
pub type VoteAgg = (u8, u64, i64);

/// Map from document identifier to the best score seen so far across all
/// rerank rounds. Backed by a `hashbrown::HashMap`.
#[verifier::external_body]
pub struct RankMap {
    inner: hashbrown::HashMap<u32, i64>,
}

/// Map from document identifier to its vote aggregate. Backed by a
/// `hashbrown::HashMap`.
#[verifier::external_body]
pub struct VoteMap {
    inner: hashbrown::HashMap<u32, VoteAgg>,
}

/// What a `RankMap` holds, as a mathematical map.
pub uninterp spec fn rank_map_view(m: RankMap) -> Map<u32, i64>;

/// What a `VoteMap` holds, as a mathematical map.
pub uninterp spec fn vote_map_view(m: VoteMap) -> Map<u32, VoteAgg>;

/// The empty rank-map contents.
pub open spec fn rank_map_empty() -> Map<u32, i64> {
    Map::empty()
}

/// The empty vote-map contents.
pub open spec fn vote_map_empty() -> Map<u32, VoteAgg> {
    Map::empty()
}

/// Relies on hashbrown::HashMap::new: a fresh map is empty.
#[verifier::external_body]
pub(crate) fn rank_map_new() -> (r: RankMap)
    ensures
        rank_map_view(r) == rank_map_empty(),
{
    RankMap { inner: hashbrown::HashMap::new() }
}

/// Relies on hashbrown::HashMap::get: returns the value stored under `key`,
/// or nothing when the key is absent.
#[verifier::external_body]
pub(crate) fn rank_map_get(m: &RankMap, key: u32) -> (r: Option<i64>)
    ensures
        r == if rank_map_view(*m).dom().contains(key) {
            Some(rank_map_view(*m)[key])
        } else {
            None::<i64>
        },
{
    m.inner.get(&key).copied()
}

/// Relies on hashbrown::HashMap::insert: stores `value` under `key`,
/// replacing any previous binding.
#[verifier::external_body]
pub(crate) fn rank_map_insert(m: &mut RankMap, key: u32, value: i64)
    ensures
        rank_map_view(*final(m)) == rank_map_view(*old(m)).insert(key, value),
{
    m.inner.insert(key, value);
}

/// Relies on hashbrown::HashMap::len: the number of stored keys.
#[verifier::external_body]
pub(crate) fn rank_map_len(m: &RankMap) -> (r: usize)
    ensures
        rank_map_view(*m).dom().finite() ==> r == rank_map_view(*m).dom().len(),
{
    m.inner.len()
}

/// Relies on hashbrown::HashMap::iter: hands out every stored pair exactly
/// once, in no promised order.
#[verifier::external_body]
pub(crate) fn rank_map_to_vec(m: &RankMap) -> (r: Vec<(u32, i64)>)
    ensures
        rank_map_view(*m).dom().finite() ==> r@.len() == rank_map_view(*m).dom().len(),
        forall|i: int|
            0 <= i < r@.len() ==> rank_map_view(*m).dom().contains((#[trigger] r@[i]).0)
                && rank_map_view(*m)[r@[i].0] == r@[i].1,
        forall|i: int, j: int| 0 <= i < j < r@.len() ==> (#[trigger] r@[i]).0 != (#[trigger] r@[j]).0,
        forall|k: u32|
            rank_map_view(*m).dom().contains(k) ==> exists|i: int|
                0 <= i < r@.len() && (#[trigger] r@[i]).0 == k,
{
    m.inner.iter().map(|(k, v)| (*k, *v)).collect()
}

/// Relies on hashbrown::HashMap::new: a fresh map is empty.
#[verifier::external_body]
pub(crate) fn vote_map_new() -> (r: VoteMap)
    ensures
        vote_map_view(r) == vote_map_empty(),
{
    VoteMap { inner: hashbrown::HashMap::new() }
}

/// Relies on hashbrown::HashMap::get: returns the aggregate stored under
/// `key`, or nothing when the key is absent.
#[verifier::external_body]
pub(crate) fn vote_map_get(m: &VoteMap, key: u32) -> (r: Option<VoteAgg>)
    ensures
        r == if vote_map_view(*m).dom().contains(key) {
            Some(vote_map_view(*m)[key])
        } else {
            None::<VoteAgg>
        },
{
    m.inner.get(&key).copied()
}

/// Relies on hashbrown::HashMap::insert: stores `value` under `key`,
/// replacing any previous binding.
#[verifier::external_body]
pub(crate) fn vote_map_insert(m: &mut VoteMap, key: u32, value: VoteAgg)
    ensures
        vote_map_view(*final(m)) == vote_map_view(*old(m)).insert(key, value),
{
    m.inner.insert(key, value);
}

/// Relies on hashbrown::HashMap::iter: hands out every stored pair exactly
/// once, in no promised order.
#[verifier::external_body]
pub(crate) fn vote_map_to_vec(m: &VoteMap) -> (r: Vec<(u32, VoteAgg)>)
    ensures
        vote_map_view(*m).dom().finite() ==> r@.len() == vote_map_view(*m).dom().len(),
        forall|i: int|
            0 <= i < r@.len() ==> vote_map_view(*m).dom().contains((#[trigger] r@[i]).0)
                && vote_map_view(*m)[r@[i].0] == r@[i].1,
        forall|i: int, j: int| 0 <= i < j < r@.len() ==> (#[trigger] r@[i]).0 != (#[trigger] r@[j]).0,
        forall|k: u32|
            vote_map_view(*m).dom().contains(k) ==> exists|i: int|
                0 <= i < r@.len() && (#[trigger] r@[i]).0 == k,
{
    m.inner.iter().map(|(k, v)| (*k, *v)).collect()
}

} // verus!
