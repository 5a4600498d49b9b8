//! Trusted interface to the lru crate: the block cache manager keeps its
//! residency table in an `LruCache` from block id to slot index.
//!
//! Two names abstract the cache's state: `lru_used`, the keys ordered from
//! least to most recently used, and `lru_map`, the association from key to
//! value; `lru_cap` is the capacity the cache was created with.

use vstd::prelude::*;

verus! {

#[verifier::external_type_specification]
#[verifier::external_body]
#[verifier::reject_recursive_types(K)]
#[verifier::reject_recursive_types(V)]
#[verifier::reject_recursive_types(S)]
pub struct ExLruCache<K, V, S>(lru::LruCache<K, V, S>);

/// The keys of `c`, least recently used first.
pub uninterp spec fn lru_used(c: lru::LruCache<usize, usize>) -> Seq<usize>;

/// The key-to-value association of `c`.
pub uninterp spec fn lru_map(c: lru::LruCache<usize, usize>) -> Map<usize, usize>;

/// The capacity `c` was created with.
pub uninterp spec fn lru_cap(c: lru::LruCache<usize, usize>) -> nat;

/// The recency table's concrete type: block id to slot index.
pub type BlockLru = lru::LruCache<usize, usize>;

/// The empty block-to-slot association.
pub open spec fn empty_slot_map() -> Map<usize, usize> {
    Map::empty()
}

/// `s` with every occurrence of `k` removed; on the recency order, which
/// never repeats a key, this drops `k`'s single entry.
pub open spec fn remove_key(s: Seq<usize>, k: usize) -> Seq<usize> {
    s.filter(|x: usize| x != k)
}

/// Relies on LruCache::unbounded: an empty cache whose capacity is
/// effectively unlimited.
#[verifier::external_body]
pub fn lru_new_unbounded() -> (r: BlockLru)
    ensures
        lru_used(r) == Seq::<usize>::empty(),
        lru_map(r) == empty_slot_map(),
        lru_cap(r) == usize::MAX,
{
    lru::LruCache::unbounded()
}

/// Relies on LruCache::get: returns the value under `k` and, when present,
/// promotes `k` to most recently used; nothing else changes.
#[verifier::external_body]
pub fn lru_get(c: &mut lru::LruCache<usize, usize>, k: usize) -> (r: Option<usize>)
    ensures
        lru_map(*final(c)) == lru_map(*old(c)),
        lru_cap(*final(c)) == lru_cap(*old(c)),
        r == (if lru_map(*old(c)).dom().contains(k) {
            Some(lru_map(*old(c))[k])
        } else {
            None::<usize>
        }),
        lru_map(*old(c)).dom().contains(k) ==> lru_used(*final(c)) == remove_key(
            lru_used(*old(c)),
            k,
        ).push(k),
        !lru_map(*old(c)).dom().contains(k) ==> lru_used(*final(c)) == lru_used(*old(c)),
{
    c.get(&k).copied()
}

/// Relies on LruCache::peek: returns the value under `k` without touching
/// the recency order.
#[verifier::external_body]
pub fn lru_peek(c: &lru::LruCache<usize, usize>, k: usize) -> (r: Option<usize>)
    ensures
        r == (if lru_map(*c).dom().contains(k) {
            Some(lru_map(*c)[k])
        } else {
            None::<usize>
        }),
{
    c.peek(&k).copied()
}

/// Relies on LruCache::put: binds `k` to `v` and makes it most recently
/// used, returning the value it replaced. Called only below capacity, where
/// the source evicts nothing.
#[verifier::external_body]
pub fn lru_put(c: &mut lru::LruCache<usize, usize>, k: usize, v: usize) -> (r: Option<usize>)
    requires
        lru_used(*old(c)).len() < lru_cap(*old(c)),
    ensures
        lru_map(*final(c)) == lru_map(*old(c)).insert(k, v),
        lru_cap(*final(c)) == lru_cap(*old(c)),
        r == (if lru_map(*old(c)).dom().contains(k) {
            Some(lru_map(*old(c))[k])
        } else {
            None::<usize>
        }),
        lru_used(*final(c)) == remove_key(lru_used(*old(c)), k).push(k),
{
    c.put(k, v)
}

/// Relies on LruCache::peek_lru: returns the least recently used pair
/// without touching anything.
#[verifier::external_body]
pub fn lru_peek_lru(c: &lru::LruCache<usize, usize>) -> (r: Option<(usize, usize)>)
    ensures
        lru_used(*c).len() == 0 ==> r is None,
        lru_used(*c).len() > 0 ==> r == Some(
            (lru_used(*c)[0], lru_map(*c)[lru_used(*c)[0]]),
        ),
{
    c.peek_lru().map(|(k, v)| (*k, *v))
}

/// Relies on LruCache::pop_lru: removes and returns the least recently
/// used pair; on an empty cache it returns nothing and changes nothing.
#[verifier::external_body]
pub fn lru_pop_lru(c: &mut lru::LruCache<usize, usize>) -> (r: Option<(usize, usize)>)
    ensures
        lru_cap(*final(c)) == lru_cap(*old(c)),
        lru_used(*old(c)).len() == 0 ==> r is None && lru_used(*final(c)) == lru_used(*old(c))
            && lru_map(*final(c)) == lru_map(*old(c)),
        lru_used(*old(c)).len() > 0 ==> r == Some(
            (lru_used(*old(c))[0], lru_map(*old(c))[lru_used(*old(c))[0]]),
        ) && lru_used(*final(c)) == lru_used(*old(c)).drop_first() && lru_map(*final(c))
            == lru_map(*old(c)).remove(lru_used(*old(c))[0]),
{
    c.pop_lru()
}

/// Relies on LruCache::len: how many pairs are held.
#[verifier::external_body]
pub fn lru_len(c: &lru::LruCache<usize, usize>) -> (r: usize)
    ensures
        r == lru_used(*c).len(),
{
    c.len()
}

/// Relies on LruCache::iter: visits every pair, most recently used first.
#[verifier::external_body]
pub fn lru_pairs(c: &lru::LruCache<usize, usize>) -> (r: Vec<(usize, usize)>)
    ensures
        r@.len() == lru_used(*c).len(),
        forall|i: int|
            0 <= i < r@.len() ==> r@[i].0 == lru_used(*c)[lru_used(*c).len() - 1 - i] && r@[i].1
                == lru_map(*c)[r@[i].0],
{
    c.iter().map(|(k, v)| (*k, *v)).collect()
}

} // verus!
