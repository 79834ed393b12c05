use payment_service::event_store::{EventStore, MokaEventStore};
use uuid::Uuid;

fn object(amount: u64) -> String {
    let mut fields = serde_json::Map::new();
    fields.insert("amount".to_string(), serde_json::Value::from(amount));
    serde_json::Value::Object(fields).to_string()
}

#[test]
fn enqueue_then_drain() {
    let mut store = MokaEventStore::new(64);

    store.enqueue("payment.debit.success".into(), object(100));
    store.enqueue("payment.debit.failed".into(), object(50));

    let drained = store.drain();
    assert_eq!(drained.len(), 2);

    // The store should be empty after a drain.
    assert!(store.drain().is_empty());
}

#[test]
fn drain_is_cleared() {
    let mut store = MokaEventStore::new(64);
    store.enqueue(
        "topic".into(),
        serde_json::Value::Object(serde_json::Map::new()).to_string(),
    );

    let first = store.drain();
    let second = store.drain();

    assert_eq!(first.len(), 1);
    assert!(second.is_empty());
}

#[test]
fn queued_events_come_out_whole() {
    let mut store = MokaEventStore::new(64);
    store.enqueue("payment.debit.success".into(), object(100));
    store.enqueue("payment.debit.success".into(), object(50));
    store.enqueue("payment.debit.failed".into(), object(7));

    let mut drained: Vec<(String, String)> = store
        .drain()
        .into_iter()
        .map(|event| (event.topic, event.payload))
        .collect();
    drained.sort();
    assert_eq!(
        drained,
        vec![
            ("payment.debit.failed".to_string(), "{\"amount\":7}".to_string()),
            ("payment.debit.success".to_string(), "{\"amount\":100}".to_string()),
            ("payment.debit.success".to_string(), "{\"amount\":50}".to_string()),
        ]
    );
}

#[test]
fn ids_are_random_identifiers_of_their_own() {
    let mut store = MokaEventStore::new(64);
    for _ in 0..20 {
        store.enqueue("topic".into(), "{}".into());
    }
    let mut ids: Vec<u128> = store.drain().iter().map(|event| event.id).collect();
    for id in &ids {
        let uuid = Uuid::from_u128(*id);
        assert_eq!(uuid.get_version_num(), 4);
        assert_eq!(uuid.get_variant(), uuid::Variant::RFC4122);
        assert_eq!((id >> 76) & 15, 4);
        assert_eq!((id >> 62) & 3, 2);
    }
    ids.sort();
    ids.dedup();
    assert_eq!(ids.len(), 20);
}

#[test]
fn an_event_under_a_used_id_replaces_the_other() {
    let mut store = MokaEventStore::new(64);
    store.enqueue_as(7, "a".into(), "1".into());
    store.enqueue_as(7, "b".into(), "2".into());
    let drained = store.drain();
    assert_eq!(drained.len(), 1);
    assert_eq!(drained[0].id, 7);
    assert_eq!(drained[0].topic, "b");
    assert_eq!(drained[0].payload, "2");
}

#[test]
fn the_store_never_holds_more_than_its_limit() {
    let mut store = MokaEventStore::new(3);
    for n in 0..10u128 {
        store.enqueue_as(n, "topic".into(), format!("{n}"));
    }
    let drained = store.drain();
    assert_eq!(drained.len(), 3);
    for event in &drained {
        assert_eq!(event.payload, format!("{}", event.id));
    }

    // One past the limit costs one event.
    for n in 0..4u128 {
        store.enqueue_as(n, "topic".into(), format!("{n}"));
    }
    assert_eq!(store.drain().len(), 3);
}

#[test]
fn a_store_without_room_holds_nothing() {
    let mut store = MokaEventStore::new(0);
    store.enqueue("topic".into(), "{}".into());
    assert!(store.drain().is_empty());
}

#[test]
fn every_event_leaves_in_exactly_one_drain() {
    let mut store = MokaEventStore::new(16);
    let mut waiting: Vec<u128> = Vec::new();
    for n in 0..200u128 {
        store.enqueue_as(n, "topic".into(), format!("{n}"));
        waiting.push(n);
        if n % 7 == 3 || n % 11 == 0 {
            let mut ids: Vec<u128> = store.drain().iter().map(|event| event.id).collect();
            ids.sort();
            assert_eq!(ids, waiting);
            waiting.clear();
        }
    }
}

#[test]
fn events_queued_after_a_drain_come_with_the_next() {
    let mut store = MokaEventStore::new(2);
    store.enqueue("a".into(), "1".into());
    store.enqueue("a".into(), "2".into());
    assert_eq!(store.drain().len(), 2);
    store.enqueue("b".into(), "3".into());
    let drained = store.drain();
    assert_eq!(drained.len(), 1);
    assert_eq!(drained[0].payload, "3");
}
