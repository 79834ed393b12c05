//! The bounded in-process cache that holds what the service does not keep durably.
//!
//! One cache type, `moka::sync::Cache` over [`CacheValue`], serves every store, so that what is
//! taken on trust of `moka` is stated once.

use crate::models::{EventView, PendingDebit, PendingEvent};
use moka::sync::Cache;
use vstd::prelude::*;

verus! {

/// What a store keeps in its cache.
#[derive(Clone, Debug)]
pub enum CacheValue {
    Debit(PendingDebit),
    DebitIds(Vec<u128>),
    Event(PendingEvent),
}

/// A cached value, mathematically.
pub enum CachedView {
    Debit(PendingDebit),
    DebitIds(Seq<u128>),
    Event(EventView),
}

impl View for CacheValue {
    type V = CachedView;

    open spec fn view(&self) -> CachedView {
        match self {
            CacheValue::Debit(debit) => CachedView::Debit(*debit),
            CacheValue::DebitIds(ids) => CachedView::DebitIds(ids@),
            CacheValue::Event(event) => CachedView::Event(event@),
        }
    }
}

/// The cache of `moka`.
#[verifier::external_type_specification]
#[verifier::external_body]
#[verifier::reject_recursive_types(K)]
#[verifier::reject_recursive_types(V)]
#[verifier::reject_recursive_types(S)]
pub struct ExCache<K, V, S>(moka::sync::Cache<K, V, S>);

/// What a cache holds.
pub uninterp spec fn cached(cache: Cache<u128, CacheValue>) -> Map<u128, CachedView>;

/// The number of entries a cache was made to hold.
pub uninterp spec fn cache_limit(cache: Cache<u128, CacheValue>) -> nat;

/// A cache never holds more entries than it was made to hold.
pub open spec fn cache_wf(cache: Cache<u128, CacheValue>) -> bool {
    cached(cache).dom().finite() && cached(cache).dom().len() <= cache_limit(cache)
}

/// Makes a cache with `moka::sync::Cache::new`: it is empty, and bounded by `limit`.
#[verifier::external_body]
pub(crate) fn cache_new(limit: u64) -> (cache: Cache<u128, CacheValue>)
    ensures
        (cached(cache) == Map::<u128, CachedView>::empty()),
        cache_limit(cache) == limit,
{
    Cache::new(limit)
}

/// Reads with `moka::sync::Cache::get`: a clone of the value under `key`, if there is one.
///
/// A read changes what the cache counts about its use, never what it holds: every write below
/// has done its own upkeep, so that none is left for a read to do.
#[verifier::external_body]
pub(crate) fn cache_get(cache: &Cache<u128, CacheValue>, key: u128) -> (r: Option<CacheValue>)
    ensures
        match r {
            Some(value) => cached(*cache).contains_key(key) && value@ == cached(*cache)[key],
            None => !cached(*cache).contains_key(key),
        },
{
    cache.get(&key)
}

/// Writes with `moka::sync::Cache::insert`, and has the cache do its upkeep at once with
/// `run_pending_tasks`.
///
/// Within the limit the entry is added or replaced and nothing else changes. Past it exactly
/// one entry is dropped; which one rests on how often each was used and on a random seed, and
/// it may be the new one.
#[verifier::external_body]
pub(crate) fn cache_insert(cache: &mut Cache<u128, CacheValue>, key: u128, value: CacheValue)
    requires
        cache_wf(*old(cache)),
    ensures
        cache_limit(*final(cache)) == cache_limit(*old(cache)),
        cache_wf(*final(cache)),
        cached(*old(cache)).insert(key, value@).dom().len() <= cache_limit(*old(cache))
            ==> cached(*final(cache)) == cached(*old(cache)).insert(key, value@),
        cached(*old(cache)).insert(key, value@).dom().len() > cache_limit(*old(cache)) ==> exists|
            dropped: u128,
        |
            #![trigger cached(*old(cache)).insert(key, value@).remove(dropped)]
            cached(*old(cache)).insert(key, value@).contains_key(dropped) && cached(*final(cache))
                == cached(*old(cache)).insert(key, value@).remove(dropped),
{
    cache.insert(key, value);
    cache.run_pending_tasks();
}

/// Discards with `moka::sync::Cache::invalidate` the entry under `key`, if there is one, and has
/// the cache do its upkeep at once with `run_pending_tasks`.
#[verifier::external_body]
pub(crate) fn cache_invalidate(cache: &mut Cache<u128, CacheValue>, key: u128)
    requires
        cache_wf(*old(cache)),
    ensures
        cache_limit(*final(cache)) == cache_limit(*old(cache)),
        cached(*final(cache)) == cached(*old(cache)).remove(key),
{
    cache.invalidate(&key);
    cache.run_pending_tasks();
}

/// Lists with `moka::sync::Cache::iter` every entry once, in no particular order.
#[verifier::external_body]
pub(crate) fn cache_items(cache: &Cache<u128, CacheValue>) -> (items: Vec<(u128, CacheValue)>)
    ensures
        items@.map_values(|item: (u128, CacheValue)| item.0).no_duplicates(),
        forall|i: int|
            0 <= i < items@.len() ==> cached(*cache).contains_key((#[trigger] items@[i]).0)
                && cached(*cache)[items@[i].0] == items@[i].1@,
        forall|key: u128|
            cached(*cache).contains_key(key) ==> exists|i: int|
                0 <= i < items@.len() && (#[trigger] items@[i]).0 == key,
{
    cache.iter().map(|(key, value)| (*key, value)).collect()
}

/// What is left of `whole` where there is room for `limit` entries: all of it if it fits, else
/// all but one entry, whichever.
pub open spec fn bounded<V>(whole: Map<u128, V>, limit: nat, left: Map<u128, V>) -> bool {
    if whole.dom().len() <= limit {
        left == whole
    } else {
        exists|dropped: u128| #[trigger]
            whole.contains_key(dropped) && left == whole.remove(dropped)
    }
}

/// What is left of a bounded map corresponds, value by value, to what is left of its image.
pub proof fn lemma_bounded_mapped<V>(
    whole: Map<u128, CachedView>,
    limit: nat,
    left: Map<u128, CachedView>,
    f: spec_fn(CachedView) -> V,
)
    requires
        whole.dom().len() <= limit ==> left == whole,
        whole.dom().len() > limit ==> exists|dropped: u128|
            #![trigger whole.remove(dropped)]
            whole.contains_key(dropped) && left == whole.remove(dropped),
    ensures
        bounded(whole.map_values(f), limit, left.map_values(f)),
{
    assert(whole.map_values(f).dom() =~= whole.dom());
    if whole.dom().len() > limit {
        let dropped = choose|dropped: u128|
            #![trigger whole.remove(dropped)]
            whole.contains_key(dropped) && left == whole.remove(dropped);
        assert(left.map_values(f) =~= whole.map_values(f).remove(dropped));
        assert(whole.map_values(f).contains_key(dropped));
    }
}

/// Where there is room nothing is lost; where there is none, one entry is, whichever, and what
/// is left is as it was.
pub proof fn law_at_most_one_is_lost<V>(whole: Map<u128, V>, limit: nat, left: Map<u128, V>)
    requires
        whole.dom().finite(),
        bounded(whole, limit, left),
    ensures
        whole.dom().len() <= limit ==> left == whole,
        whole.dom().len() > limit ==> left.dom().len() == whole.dom().len() - 1,
        forall|key: u128| #[trigger]
            left.contains_key(key) ==> whole.contains_key(key) && left[key] == whole[key],
{
}

} // verus!
