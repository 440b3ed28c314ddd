//! A bounded least-recently-used cache of transaction block numbers, backed by the `lru`
//! crate.
use vstd::prelude::*;

use std::num::NonZeroUsize;

use lru::LruCache;

verus! {

/// Key of the cache: a transaction hash as its two 128-bit halves.
pub type CacheKey = (u128, u128);

#[verifier::external_type_specification]
#[verifier::external_body]
#[verifier::reject_recursive_types(K)]
#[verifier::reject_recursive_types(V)]
#[verifier::reject_recursive_types(S)]
pub struct ExLruCache<K, V, S>(LruCache<K, V, S>);

/// An `lru::LruCache` from transaction hashes to block numbers.
pub type BlockNumberCache = LruCache<(u128, u128), u64>;

/// The cached pairs, from least to most recently used.
pub uninterp spec fn cache_pairs(c: LruCache<(u128, u128), u64>) -> Seq<((u128, u128), u64)>;

/// The number of pairs the cache was created to hold.
pub uninterp spec fn cache_capacity(c: LruCache<(u128, u128), u64>) -> nat;

/// Whether some pair has key `k`.
pub open spec fn cache_has(s: Seq<(CacheKey, u64)>, k: CacheKey) -> bool {
    exists|i: int| 0 <= i < s.len() && s[i].0 == k
}

/// The position of the pair with key `k` (meaningful when `cache_has(s, k)`).
pub open spec fn cache_position(s: Seq<(CacheKey, u64)>, k: CacheKey) -> int {
    choose|i: int| 0 <= i < s.len() && s[i].0 == k
}

/// The pairs after using the pair at position `i`: it moves to the most recent end.
pub open spec fn touched(s: Seq<(CacheKey, u64)>, i: int) -> Seq<(CacheKey, u64)> {
    s.remove(i).push(s[i])
}

/// The pairs after `put(k, v)` into a cache of capacity `cap`: an existing key gets the new
/// value and becomes most recent; a new key is added as most recent, after evicting the
/// least recently used pair when the cache is full.
pub open spec fn after_put(s: Seq<(CacheKey, u64)>, cap: nat, k: CacheKey, v: u64) -> Seq<(CacheKey, u64)> {
    if cache_has(s, k) {
        s.remove(cache_position(s, k)).push((k, v))
    } else if s.len() == cap {
        s.drop_first().push((k, v))
    } else {
        s.push((k, v))
    }
}

/// `LruCache::new`: an empty cache that holds at most `capacity` pairs.
#[verifier::external_body]
pub(crate) fn cache_new(capacity: usize) -> (r: BlockNumberCache)
    requires
        capacity > 0,
    ensures
        cache_pairs(r) == Seq::<(CacheKey, u64)>::empty(),
        cache_capacity(r) == capacity,
{
    LruCache::new(NonZeroUsize::new(capacity).unwrap_or(NonZeroUsize::MIN))
}

/// `LruCache::put`: see [`after_put`]. Hands back the previous value of an existing key.
#[verifier::external_body]
pub(crate) fn cache_put(c: &mut BlockNumberCache, k: (u128, u128), v: u64) -> (r: Option<u64>)
    ensures
        cache_capacity(*final(c)) == cache_capacity(*old(c)),
        cache_pairs(*final(c)) == after_put(cache_pairs(*old(c)), cache_capacity(*old(c)), k, v),
        cache_has(cache_pairs(*old(c)), k) ==> r == Some(cache_pairs(*old(c))[cache_position(cache_pairs(*old(c)), k)].1),
        !cache_has(cache_pairs(*old(c)), k) ==> r is None,
{
    c.put(k, v)
}

/// `LruCache::get`: the value of `k`, which becomes the most recently used pair.
#[verifier::external_body]
pub(crate) fn cache_get(c: &mut BlockNumberCache, k: &(u128, u128)) -> (r: Option<u64>)
    ensures
        cache_capacity(*final(c)) == cache_capacity(*old(c)),
        cache_has(cache_pairs(*old(c)), *k) ==> {
            let p = cache_position(cache_pairs(*old(c)), *k);
            &&& r == Some(cache_pairs(*old(c))[p].1)
            &&& cache_pairs(*final(c)) == touched(cache_pairs(*old(c)), p)
        },
        !cache_has(cache_pairs(*old(c)), *k) ==> r is None && cache_pairs(*final(c)) == cache_pairs(*old(c)),
{
    c.get(k).copied()
}

/// `LruCache::contains`: whether `k` is cached (recency is unchanged).
#[verifier::external_body]
pub(crate) fn cache_contains(c: &BlockNumberCache, k: &(u128, u128)) -> (r: bool)
    ensures
        r == cache_has(cache_pairs(*c), *k),
{
    c.contains(k)
}

/// `LruCache::len`: the number of cached pairs.
#[verifier::external_body]
pub(crate) fn cache_len(c: &BlockNumberCache) -> (r: usize)
    ensures
        r == cache_pairs(*c).len(),
{
    c.len()
}

} // verus!
