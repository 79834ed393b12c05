//! The outbound events that wait to be published.
//!
//! Delivery is best effort: events live in a bounded cache, not in the database, and a process
//! that ends before they are drained loses them. Consumers that need more have to be idempotent
//! themselves.

use crate::cache::{
    bounded, cache_insert, cache_invalidate, cache_items, cache_limit, cache_new, cache_wf, cached,
    lemma_bounded_mapped, CacheValue, CachedView,
};
use crate::ids::{is_drawn_id, is_random_id, random_id};
use crate::models::{EventView, PendingEvent};
use moka::sync::Cache;
use vstd::prelude::*;

verus! {

/// What a store of events holds, mathematically.
pub struct Queued {
    /// The events by their id.
    pub events: Map<u128, EventView>,
    /// How many events the store is made to hold.
    pub limit: nat,
}

/// `after` is what a store that held `before` holds once `event` is queued in it.
pub open spec fn queues(before: Queued, event: EventView, after: Queued) -> bool {
    &&& after.limit == before.limit
    &&& bounded(before.events.insert(event.id, event), before.limit, after.events)
}

/// `out` holds each of `events` once, in some order, and nothing else.
pub open spec fn lists(events: Map<u128, EventView>, out: Seq<EventView>) -> bool {
    &&& forall|i: int, j: int| 0 <= i < j < out.len() ==> out[i].id != out[j].id
    &&& forall|i: int|
        0 <= i < out.len() ==> events.contains_key((#[trigger] out[i]).id) && events[out[i].id]
            == out[i]
    &&& forall|id: u128| #[trigger]
        events.contains_key(id) ==> exists|i: int| 0 <= i < out.len() && (#[trigger] out[i]).id
            == id
}

/// The events of a list, mathematically.
pub open spec fn event_views(events: Seq<PendingEvent>) -> Seq<EventView> {
    events.map_values(|event: PendingEvent| event@)
}

/// A queue of outbound events.
pub trait EventStore: Sized {
    /// The store's own validity.
    spec fn wf(&self) -> bool;

    /// What the store holds.
    spec fn queued(&self) -> Queued;

    /// Queues an event under an id drawn for it.
    fn enqueue(&mut self, topic: String, payload: String)
        requires
            old(self).wf(),
        ensures
            final(self).wf(),
            exists|id: u128| #[trigger]
                is_drawn_id(id) && is_random_id(id) && queues(
                    old(self).queued(),
                    EventView { id, topic: topic@, payload: payload@ },
                    final(self).queued(),
                ),
    ;

    /// Takes all queued events out.
    fn drain(&mut self) -> (events: Vec<PendingEvent>)
        requires
            old(self).wf(),
        ensures
            final(self).wf(),
            final(self).queued() == (Queued { events: Map::empty(), ..old(self).queued() }),
            lists(old(self).queued().events, event_views(events@)),
    ;
}

/// An [`EventStore`] in a bounded cache.
///
/// Each entry lies under an id of its own, so that events of one topic do not overwrite each
/// other.
pub struct MokaEventStore {
    cache: Cache<u128, CacheValue>,
}

/// The event in a cached value.
pub open spec fn cached_event(value: CachedView) -> EventView {
    value->Event_0
}

impl MokaEventStore {
    /// The cache holds events only, each under its id.
    pub closed spec fn valid(&self) -> bool {
        &&& cache_wf(self.cache)
        &&& forall|id: u128| #[trigger]
            cached(self.cache).contains_key(id) ==> cached(self.cache)[id] is Event
                && cached_event(cached(self.cache)[id]).id == id
    }

    /// What the cache holds.
    pub closed spec fn contents(&self) -> Queued {
        Queued {
            events: cached(self.cache).map_values(|v: CachedView| cached_event(v)),
            limit: cache_limit(self.cache),
        }
    }

    /// A new store that holds nothing yet, with room for `max_capacity` events.
    pub fn new(max_capacity: u64) -> (store: Self)
        ensures
            store.wf(),
            store.queued() == (Queued { events: Map::empty(), limit: max_capacity as nat }),
    {
        let store = MokaEventStore { cache: cache_new(max_capacity) };
        assert(store.contents().events =~= Map::empty());
        store
    }

    /// Queues an event under the id `id`.
    pub fn enqueue_as(&mut self, id: u128, topic: String, payload: String)
        requires
            old(self).wf(),
        ensures
            final(self).wf(),
            queues(
                old(self).queued(),
                EventView { id, topic: topic@, payload: payload@ },
                final(self).queued(),
            ),
    {
        let event = PendingEvent { id, topic, payload };
        let ghost view = event@;
        cache_insert(&mut self.cache, id, CacheValue::Event(event));
        proof {
            let all = cached(old(self).cache).insert(id, CachedView::Event(view));
            lemma_bounded_mapped(
                all,
                cache_limit(old(self).cache),
                cached(self.cache),
                |v: CachedView| cached_event(v),
            );
            assert(all.map_values(|v: CachedView| cached_event(v))
                =~= old(self).contents().events.insert(id, view));
        }
    }
}

impl EventStore for MokaEventStore {
    open spec fn wf(&self) -> bool {
        self.valid()
    }

    open spec fn queued(&self) -> Queued {
        self.contents()
    }

    fn enqueue(&mut self, topic: String, payload: String) {
        let id: u128 = random_id();
        self.enqueue_as(id, topic, payload);
    }

    fn drain(&mut self) -> (events: Vec<PendingEvent>) {
        let items: Vec<(u128, CacheValue)> = cache_items(&self.cache);
        let ghost all = items@;
        let ghost before = cached(self.cache);
        let mut events: Vec<PendingEvent> = Vec::with_capacity(items.len());
        for item in it: items
            invariant
                it.seq() == all,
                events@.len() == it.index(),
                forall|i: int|
                    0 <= i < all.len() ==> before.contains_key((#[trigger] all[i]).0)
                        && before[all[i].0] is Event && cached_event(before[all[i].0]).id
                        == all[i].0 && before[all[i].0] == all[i].1@,
                forall|i: int|
                    0 <= i < events@.len() ==> CachedView::Event((#[trigger] events@[i])@)
                        == all[i].1@,
        {
            if let CacheValue::Event(event) = item.1 {
                events.push(event);
            }
        }
        proof {
            let out = event_views(events@);
            let held = self.contents().events;
            let keys = all.map_values(|item: (u128, CacheValue)| item.0);
            assert forall|i: int| 0 <= i < out.len() implies #[trigger] out[i].id == all[i].0
                && held.contains_key(out[i].id) && held[out[i].id] == out[i] by {
                assert(CachedView::Event(events@[i]@) == all[i].1@);
            }
            assert forall|i: int, j: int| 0 <= i < j < out.len() implies out[i].id
                != out[j].id by {
                assert(keys[i] != keys[j]);
            }
            assert forall|id: u128| #[trigger] held.contains_key(id) implies exists|i: int|
                0 <= i < out.len() && (#[trigger] out[i]).id == id by {
                let i = choose|i: int| 0 <= i < all.len() && (#[trigger] all[i]).0 == id;
                assert(out[i].id == id);
            }
            assert(lists(held, out));
        }
        for i in 0..events.len()
            invariant
                cache_wf(self.cache),
                cache_limit(self.cache) == cache_limit(old(self).cache),
                forall|id: u128| #[trigger]
                    cached(self.cache).contains_key(id) ==> before.contains_key(id)
                        && cached(self.cache)[id] == before[id],
                forall|j: int|
                    0 <= j < i ==> !cached(self.cache).contains_key((#[trigger] events@[j]).id),
        {
            cache_invalidate(&mut self.cache, events[i].id);
        }
        proof {
            assert forall|id: u128| !cached(self.cache).contains_key(id) by {
                if cached(self.cache).contains_key(id) {
                    assert(old(self).contents().events.contains_key(id));
                    let out = event_views(events@);
                    let i = choose|i: int| 0 <= i < out.len() && (#[trigger] out[i]).id == id;
                    assert(events@[i].id == id);
                }
            }
            assert(self.contents().events =~= Map::empty());
        }
        events
    }
}

} // verus!
