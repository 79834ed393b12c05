//! What holds of queued events across calls.

use crate::event_store::{event_views, lists, queues, Queued};
use crate::models::{EventView, PendingEvent};
use vstd::prelude::*;

verus! {

/// As many events come out as were queued.
pub proof fn law_drain_counts(events: Map<u128, EventView>, out: Seq<EventView>)
    requires
        lists(events, out),
    ensures
        events.dom().finite(),
        out.len() == events.dom().len(),
{
    let ids = out.map_values(|event: EventView| event.id);
    assert(ids.no_duplicates());
    ids.unique_seq_to_set();
    assert forall|id: u128| ids.to_set().contains(id) <==> #[trigger] events.contains_key(id) by {
        if events.contains_key(id) {
            let i = choose|i: int| 0 <= i < out.len() && (#[trigger] out[i]).id == id;
            assert(ids[i] == id);
        }
        if ids.contains(id) {
            let i = choose|i: int| 0 <= i < ids.len() && ids[i] == id;
            assert(out[i].id == id);
        }
    }
    assert(ids.to_set() =~= events.dom());
}

/// An event that was queued where there was room comes out with the next drain, along with
/// every event that was queued before under another id.
pub proof fn law_queued_is_drained(
    before: Queued,
    event: EventView,
    after: Queued,
    out: Seq<EventView>,
    id: u128,
)
    requires
        queues(before, event, after),
        before.events.insert(event.id, event).dom().len() <= before.limit,
        lists(after.events, out),
    ensures
        out.contains(event),
        before.events.contains_key(id) && id != event.id ==> out.contains(before.events[id]),
{
    let i = choose|i: int| 0 <= i < out.len() && (#[trigger] out[i]).id == event.id;
    assert(after.events.contains_key(event.id));
    assert(out[i] == event);
    if before.events.contains_key(id) && id != event.id {
        assert(after.events.contains_key(id));
        let j = choose|j: int| 0 <= j < out.len() && (#[trigger] out[j]).id == id;
        assert(out[j] == before.events[id]);
    }
}

/// A drain leaves nothing for the next one.
pub proof fn law_drained_is_empty(out: Seq<EventView>)
    requires
        lists(Map::empty(), out),
    ensures
        out.len() == 0,
{
    if out.len() > 0 {
        assert(Map::<u128, EventView>::empty().contains_key(out[0].id));
    }
}

/// Something that is done to a queue.
pub enum QueueOp {
    /// An event is queued.
    Enqueue(EventView),
    /// The events are taken out.
    Drain(Seq<EventView>),
}

/// `after` is what a queue that held `before` holds once `op` is done to it.
pub open spec fn done(before: Queued, op: QueueOp, after: Queued) -> bool {
    match op {
        QueueOp::Enqueue(event) => queues(before, event, after),
        QueueOp::Drain(out) => after == (Queued { events: Map::empty(), ..before }) && lists(
            before.events,
            out,
        ),
    }
}

/// The events that were queued since the last drain, in the order in which they were queued.
pub open spec fn since_drain(ops: Seq<QueueOp>) -> Seq<EventView>
    decreases ops.len(),
{
    if ops.len() == 0 {
        Seq::empty()
    } else {
        match ops.last() {
            QueueOp::Enqueue(event) => since_drain(ops.drop_last()).push(event),
            QueueOp::Drain(_) => Seq::empty(),
        }
    }
}

/// No two events are queued under one id.
pub open spec fn fresh_ids(ops: Seq<QueueOp>) -> bool {
    forall|i: int, j: int|
        0 <= i < j < ops.len() && (#[trigger] ops[i]) is Enqueue && (#[trigger] ops[j]) is Enqueue
            ==> ops[i]->Enqueue_0.id != ops[j]->Enqueue_0.id
}

/// `states` is what a new queue for `limit` events holds before and after each of `ops`, no id
/// comes twice, and there is room for all events at any time.
pub open spec fn queue_history(ops: Seq<QueueOp>, states: Seq<Queued>, limit: nat) -> bool {
    &&& states.len() == ops.len() + 1
    &&& states[0] == (Queued { events: Map::empty(), limit })
    &&& forall|i: int| 0 <= i < ops.len() ==> done(#[trigger] states[i], ops[i], states[i + 1])
    &&& fresh_ids(ops)
    &&& forall|i: int| 0 <= i <= ops.len() ==> since_drain(#[trigger] ops.take(i)).len() <= limit
}

/// Where an event stands among those queued since the last drain: it was queued, and there was
/// no drain after it.
pub open spec fn still_queued(ops: Seq<QueueOp>, i: int) -> bool {
    &&& 0 <= i < ops.len()
    &&& ops[i] is Enqueue
    &&& forall|k: int| i < k < ops.len() ==> !(#[trigger] ops[k] is Drain)
}

/// The events queued since the last drain are those that were queued with no drain after them.
proof fn lemma_since_drain(ops: Seq<QueueOp>)
    ensures
        forall|i: int| #[trigger]
            still_queued(ops, i) ==> since_drain(ops).contains(ops[i]->Enqueue_0),
        forall|event: EventView| #[trigger]
            since_drain(ops).contains(event) ==> exists|i: int| #[trigger]
                still_queued(ops, i) && ops[i] == QueueOp::Enqueue(event),
    decreases ops.len(),
{
    if ops.len() > 0 {
        let rest = ops.drop_last();
        let n = ops.len() - 1;
        lemma_since_drain(rest);
        let (before, now) = (since_drain(rest), since_drain(ops));
        assert forall|i: int| #[trigger] still_queued(ops, i) implies now.contains(
            ops[i]->Enqueue_0,
        ) by {
            if i == n {
                assert(now[now.len() - 1] == ops[i]->Enqueue_0);
            } else {
                assert(!(ops[n] is Drain));
                assert(rest[i] == ops[i]);
                assert forall|k: int| i < k < rest.len() implies !(#[trigger] rest[k] is Drain) by {
                    assert(rest[k] == ops[k]);
                }
                assert(still_queued(rest, i));
                let j = choose|j: int| 0 <= j < before.len() && before[j] == ops[i]->Enqueue_0;
                assert(now[j] == before[j]);
            }
        }
        assert forall|event: EventView| #[trigger] now.contains(event) implies exists|i: int| #[trigger]
            still_queued(ops, i) && ops[i] == QueueOp::Enqueue(event) by {
            let j = choose|j: int| 0 <= j < now.len() && now[j] == event;
            if j == before.len() {
                assert(still_queued(ops, n as int) && ops[n as int] == QueueOp::Enqueue(event));
            } else {
                assert(before[j] == event);
                assert(before.contains(event));
                let i = choose|i: int| #[trigger]
                    still_queued(rest, i) && rest[i] == QueueOp::Enqueue(event);
                assert(ops[i] == rest[i]);
                assert forall|k: int| i < k < ops.len() implies !(#[trigger] ops[k] is Drain) by {
                    if k < n {
                        assert(rest[k] == ops[k]);
                    }
                }
                assert(still_queued(ops, i) && ops[i] == QueueOp::Enqueue(event));
            }
        }
    }
}

/// What is queued after `n` steps is what was queued since the last drain.
proof fn lemma_queue_holds(ops: Seq<QueueOp>, states: Seq<Queued>, limit: nat, n: int)
    requires
        queue_history(ops, states, limit),
        0 <= n <= ops.len(),
    ensures
        states[n].limit == limit,
        lists(states[n].events, since_drain(ops.take(n))),
    decreases n,
{
    if n == 0 {
        assert(ops.take(0).len() == 0);
    } else {
        let (s, next) = (states[n - 1], states[n]);
        lemma_queue_holds(ops, states, limit, n - 1);
        assert(done(states[n - 1], ops[n - 1], states[n - 1 + 1]));
        assert(ops.take(n).drop_last() =~= ops.take(n - 1));
        if let QueueOp::Enqueue(event) = ops[n - 1] {
            let before = since_drain(ops.take(n - 1));
            let now = since_drain(ops.take(n));
            assert(now == before.push(event));
            if s.events.contains_key(event.id) {
                let j = choose|j: int| 0 <= j < before.len() && (#[trigger] before[j]).id == event.id;
                lemma_since_drain(ops.take(n - 1));
                assert(before.contains(before[j]));
                let earlier = ops.take(n - 1);
                let i = choose|i: int| #[trigger]
                    still_queued(earlier, i) && earlier[i] == QueueOp::Enqueue(before[j]);
                assert(ops[i] == QueueOp::Enqueue(before[j]));
                assert(ops[i] is Enqueue && ops[n - 1] is Enqueue);
            }
            let whole = s.events.insert(event.id, event);
            assert forall|i: int, j: int| 0 <= i < j < now.len() implies now[i].id != now[j].id by {
                assert(before[i] == now[i]);
                assert(s.events.contains_key(before[i].id));
                if j < before.len() {
                    assert(before[j] == now[j]);
                }
            }
            assert forall|i: int| 0 <= i < now.len() implies whole.contains_key(
                (#[trigger] now[i]).id,
            ) && whole[now[i].id] == now[i] by {
                if i < before.len() {
                    assert(before[i] == now[i]);
                }
            }
            assert forall|id: u128| #[trigger] whole.contains_key(id) implies exists|i: int|
                0 <= i < now.len() && (#[trigger] now[i]).id == id by {
                if id == event.id {
                    assert(now[now.len() - 1].id == id);
                } else {
                    let i = choose|i: int|
                        0 <= i < before.len() && (#[trigger] before[i]).id == id;
                    assert(now[i].id == id);
                }
            }
            assert(lists(whole, now));
            law_drain_counts(whole, now);
            assert(next.events == whole);
        }
    }
}

/// Two lists of the same events hold the same.
proof fn lemma_same_list(events: Map<u128, EventView>, a: Seq<EventView>, b: Seq<EventView>)
    requires
        lists(events, a),
        lists(events, b),
    ensures
        a.to_multiset() == b.to_multiset(),
{
    assert(a.no_duplicates());
    assert(b.no_duplicates());
    a.lemma_multiset_has_no_duplicates();
    b.lemma_multiset_has_no_duplicates();
    a.to_multiset_ensures();
    b.to_multiset_ensures();
    assert forall|event: EventView| a.contains(event) <==> b.contains(event) by {
        if a.contains(event) {
            let i = choose|i: int| 0 <= i < a.len() && a[i] == event;
            assert(events.contains_key(a[i].id));
            let j = choose|j: int| 0 <= j < b.len() && (#[trigger] b[j]).id == event.id;
            assert(b[j] == event);
        }
        if b.contains(event) {
            let i = choose|i: int| 0 <= i < b.len() && b[i] == event;
            assert(events.contains_key(b[i].id));
            let j = choose|j: int| 0 <= j < a.len() && (#[trigger] a[j]).id == event.id;
            assert(a[j] == event);
        }
    }
    assert forall|event: EventView| #[trigger]
        a.to_multiset().count(event) == b.to_multiset().count(event) by {
        assert(a.to_multiset().contains(event) <==> a.contains(event));
        assert(b.to_multiset().contains(event) <==> b.contains(event));
    }
    assert(a.to_multiset() =~= b.to_multiset());
}

/// Over any history with room for all events, a drain gives exactly the events that were queued
/// since the last one, each once, and leaves nothing.
pub proof fn law_drain_after_history(
    ops: Seq<QueueOp>,
    states: Seq<Queued>,
    limit: nat,
    n: int,
    out: Seq<EventView>,
)
    requires
        queue_history(ops, states, limit),
        0 <= n < ops.len(),
        ops[n] == QueueOp::Drain(out),
    ensures
        out.to_multiset() == since_drain(ops.take(n)).to_multiset(),
        out.no_duplicates(),
        states[n + 1] == (Queued { events: Map::empty(), limit }),
{
    lemma_queue_holds(ops, states, limit, n);
    assert(done(states[n], ops[n], states[n + 1]));
    lemma_same_list(states[n].events, out, since_drain(ops.take(n)));
}

/// An event that is still queued after `n` steps was queued in them, with no drain after it.
proof fn lemma_where_queued(ops: Seq<QueueOp>, n: int, i: int)
    requires
        fresh_ids(ops),
        0 <= n < ops.len(),
        0 <= i < ops.len(),
        ops[i] is Enqueue,
        since_drain(ops.take(n)).contains(ops[i]->Enqueue_0),
    ensures
        i < n,
        forall|k: int| i < k < n ==> !(#[trigger] ops[k] is Drain),
{
    let before = ops.take(n);
    let event = ops[i]->Enqueue_0;
    lemma_since_drain(before);
    let j = choose|j: int| #[trigger]
        still_queued(before, j) && before[j] == QueueOp::Enqueue(event);
    assert(before[j] == ops[j]);
    assert(ops[i] is Enqueue && ops[j] is Enqueue);
    assert(i == j);
    assert forall|k: int| i < k < n implies !(#[trigger] ops[k] is Drain) by {
        assert(before[k] == ops[k]);
    }
}

/// Over any history with room for all events, every event leaves the queue in exactly one
/// drain, the next one after it was queued, and nothing else ever leaves.
pub proof fn law_each_event_leaves_once(
    ops: Seq<QueueOp>,
    states: Seq<Queued>,
    limit: nat,
    n: int,
    out: Seq<EventView>,
    i: int,
    other: EventView,
)
    requires
        queue_history(ops, states, limit),
        0 <= n < ops.len(),
        ops[n] == QueueOp::Drain(out),
        0 <= i < ops.len(),
        ops[i] is Enqueue,
    ensures
        out.contains(ops[i]->Enqueue_0) <==> i < n && forall|k: int|
            i < k < n ==> !(#[trigger] ops[k] is Drain),
        out.contains(other) ==> exists|j: int| 0 <= j < n && #[trigger] ops[j] == QueueOp::Enqueue(
            other,
        ),
{
    let before = ops.take(n);
    let event = ops[i]->Enqueue_0;
    law_drain_after_history(ops, states, limit, n, out);
    out.to_multiset_ensures();
    since_drain(before).to_multiset_ensures();
    assert(out.contains(event) <==> since_drain(before).contains(event)) by {
        assert(out.to_multiset().count(event) == since_drain(before).to_multiset().count(event));
    }
    assert(out.contains(other) <==> since_drain(before).contains(other)) by {
        assert(out.to_multiset().count(other) == since_drain(before).to_multiset().count(other));
    }
    lemma_since_drain(before);
    if i < n && forall|k: int| i < k < n ==> !(#[trigger] ops[k] is Drain) {
        assert(before[i] == ops[i]);
        assert forall|k: int| i < k < before.len() implies !(#[trigger] before[k] is Drain) by {
            assert(before[k] == ops[k]);
        }
        assert(still_queued(before, i));
    }
    if since_drain(before).contains(event) {
        lemma_where_queued(ops, n, i);
    }
    if since_drain(before).contains(other) {
        let j = choose|j: int| #[trigger]
            still_queued(before, j) && before[j] == QueueOp::Enqueue(other);
        assert(ops[j] == QueueOp::Enqueue(other));
    }
}

/// The events of a list are seen as they are: with their ids, topics and payloads, in order.
pub proof fn law_events_are_seen_whole(events: Seq<PendingEvent>, i: int)
    requires
        0 <= i < events.len(),
    ensures
        event_views(events).len() == events.len(),
        event_views(events)[i].id == events[i].id,
        event_views(events)[i].topic == events[i].topic@,
        event_views(events)[i].payload == events[i].payload@,
{
}

} // verus!
