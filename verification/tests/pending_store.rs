use payment_service::models::PendingDebit;
use payment_service::pending_store::{MokaPendingDebitStore, PendingDebitStore};
use payment_service::time::Timestamp;
use uuid::Uuid;

fn make_pending(debit_id: u128, user_id: u128, amount: u64) -> PendingDebit {
    let expires_at = chrono::Utc::now() + chrono::Duration::seconds(60);
    PendingDebit {
        debit_id,
        order_id: 1,
        user_id,
        amount,
        expires_at: Timestamp {
            secs: expires_at.timestamp(),
            nanos: expires_at.timestamp_subsec_nanos(),
        },
    }
}

fn ids(debits: &[PendingDebit]) -> Vec<u128> {
    debits.iter().map(|debit| debit.debit_id).collect()
}

#[test]
fn add_and_lookup() {
    let mut store = MokaPendingDebitStore::new(128);
    let uid = Uuid::new_v4().as_u128();
    let did = Uuid::new_v4().as_u128();

    store.add(make_pending(did, uid, 100));

    let pending = store.pending_for_user(uid);
    assert_eq!(pending.len(), 1);
    assert_eq!(pending[0].debit_id, did);
}

#[test]
fn remove_cleans_index() {
    let mut store = MokaPendingDebitStore::new(128);
    let uid = Uuid::new_v4().as_u128();
    let did = Uuid::new_v4().as_u128();

    store.add(make_pending(did, uid, 100));
    store.remove(did);

    assert!(store.pending_for_user(uid).is_empty());
}

#[test]
fn multiple_debits_per_user() {
    let mut store = MokaPendingDebitStore::new(128);
    let uid = Uuid::new_v4().as_u128();
    let did1 = Uuid::new_v4().as_u128();
    let did2 = Uuid::new_v4().as_u128();

    store.add(make_pending(did1, uid, 50));
    store.add(make_pending(did2, uid, 75));

    assert_eq!(store.pending_for_user(uid).len(), 2);

    store.remove(did1);
    let remaining = store.pending_for_user(uid);
    assert_eq!(remaining.len(), 1);
    assert_eq!(remaining[0].debit_id, did2);
}

#[test]
fn a_debit_comes_back_as_it_was_parked() {
    let mut store = MokaPendingDebitStore::new(8);
    let debit = make_pending(5, 9, 40);
    store.add(debit);
    assert_eq!(store.pending_for_user(9), vec![debit]);
}

#[test]
fn debits_come_in_the_order_in_which_they_were_parked() {
    let mut store = MokaPendingDebitStore::new(128);
    for id in [30, 10, 20, 40] {
        store.add(make_pending(id, 1, 5));
    }
    assert_eq!(ids(&store.pending_for_user(1)), vec![30, 10, 20, 40]);
    store.remove(10);
    assert_eq!(ids(&store.pending_for_user(1)), vec![30, 20, 40]);
}

#[test]
fn look_ups_follow_any_history() {
    let mut store = MokaPendingDebitStore::new(64);
    let mut expected: Vec<PendingDebit> = Vec::new();
    let mut seed: u64 = 3;
    for n in 0..600u64 {
        seed = seed.wrapping_mul(6_364_136_223_846_793_005).wrapping_add(1_442_695_040_888_963_407);
        let id = u128::from((seed >> 40) % 12);
        // Each debit is always of one user.
        let user = id % 3;
        if (seed >> 20) % 3 == 0 {
            store.remove(id);
            expected.retain(|debit| debit.debit_id != id);
        } else {
            let debit = make_pending(id, user, n);
            store.add(debit);
            match expected.iter().position(|other| other.debit_id == id) {
                Some(place) => expected[place] = debit,
                None => expected.push(debit),
            }
        }
        for user in 0..3u128 {
            let wanted: Vec<PendingDebit> =
                expected.iter().copied().filter(|debit| debit.user_id == user).collect();
            assert_eq!(store.pending_for_user(user), wanted);
        }
    }
}

#[test]
fn users_do_not_see_each_other() {
    let mut store = MokaPendingDebitStore::new(128);
    store.add(make_pending(1, 100, 5));
    store.add(make_pending(2, 200, 6));
    assert_eq!(ids(&store.pending_for_user(100)), vec![1]);
    assert_eq!(ids(&store.pending_for_user(200)), vec![2]);
    assert!(store.pending_for_user(300).is_empty());
    store.remove(1);
    assert!(store.pending_for_user(100).is_empty());
    assert_eq!(ids(&store.pending_for_user(200)), vec![2]);
}

#[test]
fn a_debit_parked_again_is_replaced_and_listed_once() {
    let mut store = MokaPendingDebitStore::new(128);
    store.add(make_pending(1, 100, 5));
    store.add(make_pending(2, 100, 6));
    store.add(make_pending(1, 100, 7));
    let pending = store.pending_for_user(100);
    assert_eq!(ids(&pending), vec![1, 2]);
    assert_eq!(pending[0].amount, 7);
}

#[test]
fn a_debit_parked_for_another_user_moves() {
    let mut store = MokaPendingDebitStore::new(128);
    store.add(make_pending(1, 100, 5));
    store.add(make_pending(1, 200, 5));
    assert!(store.pending_for_user(100).is_empty());
    assert_eq!(ids(&store.pending_for_user(200)), vec![1]);
    store.remove(1);
    assert!(store.pending_for_user(200).is_empty());
}

#[test]
fn removing_an_unknown_debit_changes_nothing() {
    let mut store = MokaPendingDebitStore::new(128);
    store.add(make_pending(1, 100, 5));
    store.remove(2);
    assert_eq!(ids(&store.pending_for_user(100)), vec![1]);
}

#[test]
fn a_full_store_drops_one_debit_for_each_that_is_too_many() {
    let mut store = MokaPendingDebitStore::new(2);
    for id in 1..=5u128 {
        store.add(make_pending(id, 100, 5));
    }
    let pending = store.pending_for_user(100);
    assert!(pending.len() <= 2);
    let mut seen = ids(&pending);
    seen.sort();
    seen.dedup();
    assert_eq!(seen.len(), pending.len());
}

#[test]
fn a_store_without_room_parks_nothing() {
    let mut store = MokaPendingDebitStore::new(0);
    store.add(make_pending(1, 100, 5));
    assert!(store.pending_for_user(100).is_empty());
}
