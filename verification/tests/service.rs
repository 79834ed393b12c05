use std::collections::HashMap;

use payment_service::event_store::{EventStore, MokaEventStore};
use payment_service::models::{
    CreditRequest, DebitFailed, DebitFailureReason, DebitRequest, DebitSuccess, LedgerEntry,
    PendingEvent,
};
use payment_service::pending_store::MokaPendingDebitStore;
use payment_service::repository::{self, CreditWrite, DebitWrite};
use payment_service::service::{
    Action, Flow, Outbound, PaymentService, RepoCall, Reply, ServiceError, DEBIT_FAILED_TOPIC,
    DEBIT_REQUEST_TOPIC, DEBIT_SUCCESS_TOPIC,
};
use payment_service::statement::statement;
use payment_service::time::{Span, Timestamp, LAST_SECOND};

type Service = PaymentService<MokaPendingDebitStore, MokaEventStore>;

const ALICE: u128 = 0xa11ce;
const BOB: u128 = 0xb0b;
const WAIT: i64 = 300;

/// The tables, in memory.
#[derive(Default)]
struct Tables {
    accounts: HashMap<String, i64>,
    credits: Vec<CreditWrite>,
    debits: Vec<DebitWrite>,
    abandoned: Vec<u128>,
    /// Whether debits that are given up cannot be put on record.
    broken: bool,
    /// The calls that were made.
    calls: Vec<RepoCall>,
}

impl Tables {
    fn row(&self, user_id: u128) -> Option<i64> {
        self.accounts.get(&repository::key(user_id)).copied()
    }

    fn balance(&self, user_id: u128) -> u64 {
        repository::balance(self.row(user_id))
    }

    fn answer(&mut self, call: RepoCall) -> Reply {
        self.calls.push(call);
        match call {
            RepoCall::Credit { user_id, amount } => {
                match repository::credit(user_id, self.row(user_id), amount) {
                    Ok(write) => {
                        self.accounts.insert(write.user_id.clone(), write.balance);
                        self.credits.push(write);
                        Reply::Done
                    }
                    Err(_) => Reply::Failed,
                }
            }
            RepoCall::Balance { user_id } => Reply::Balance(self.balance(user_id)),
            RepoCall::TryDebit { user_id, amount } => {
                match repository::try_debit(self.row(user_id), amount) {
                    Some(balance) => {
                        self.accounts.insert(repository::key(user_id), balance);
                        Reply::Debited(true)
                    }
                    None => Reply::Debited(false),
                }
            }
            RepoCall::DebitProcessed { debit_id } => {
                let id = repository::key(debit_id);
                let settled = self.debits.iter().any(|write| write.row.debit_id == id);
                Reply::Processed(settled || self.abandoned.contains(&debit_id))
            }
            RepoCall::MarkProcessed { debit_id, order_id, user_id, amount } => {
                let write = repository::mark_processed(debit_id, order_id, user_id, amount);
                if !self.debits.iter().any(|other| other.row.debit_id == write.row.debit_id) {
                    self.debits.push(write);
                }
                Reply::Done
            }
            RepoCall::MarkAbandoned { debit_id } => {
                if self.broken {
                    return Reply::Failed;
                }
                if !self.abandoned.contains(&debit_id) {
                    self.abandoned.push(debit_id);
                }
                Reply::Done
            }
        }
    }
}

fn at(secs: i64) -> Timestamp {
    Timestamp { secs, nanos: 0 }
}

fn service() -> Service {
    PaymentService::new(
        MokaPendingDebitStore::new(100),
        MokaEventStore::new(100),
        Span { secs: WAIT, nanos: 0 },
    )
}

fn written(event: Outbound) -> String {
    match event {
        Outbound::Success(success) => format!("ok {} {}", success.debit_id, success.amount),
        Outbound::Failed(failed) => {
            format!("failed {} {} {}", failed.debit_id, failed.amount, failed.balance)
        }
    }
}

/// Carries a flow through to its end.
fn run(service: &mut Service, tables: &mut Tables, begun: (Flow, Action), now: Timestamp) -> Action {
    let (mut flow, mut action) = begun;
    loop {
        let reply = match action {
            Action::Ask(call) => tables.answer(call),
            Action::Encode(event) => Reply::Payload(written(event)),
            Action::Finish | Action::Fail(_) => return action,
        };
        (flow, action) = service.resume_at(flow, reply, now);
    }
}

fn credit(service: &mut Service, tables: &mut Tables, user_id: u128, amount: u64, secs: i64) {
    let begun = service.credit(CreditRequest { user_id, amount });
    assert_eq!(run(service, tables, begun, at(secs)), Action::Finish);
}

fn request(debit_id: u128, user_id: u128, amount: u64) -> DebitRequest {
    DebitRequest { debit_id, order_id: debit_id + 1_000, user_id, amount }
}

fn debit(service: &mut Service, tables: &mut Tables, req: DebitRequest, secs: i64) {
    let begun = service.handle_debit_request(req);
    assert_eq!(run(service, tables, begun, at(secs)), Action::Finish);
}

fn published(service: &mut Service) -> Vec<(String, String)> {
    let events: Vec<PendingEvent> = service.events().drain();
    let mut events: Vec<(String, String)> =
        events.into_iter().map(|event| (event.topic, event.payload)).collect();
    events.sort();
    events
}

fn ok(text: &str) -> (String, String) {
    ("payment.debit.success".to_string(), text.to_string())
}

fn failed(text: &str) -> (String, String) {
    ("payment.debit.failed".to_string(), text.to_string())
}

#[test]
fn topics_are_as_documented() {
    assert_eq!(DEBIT_REQUEST_TOPIC, "payment.debit.request");
    assert_eq!(DEBIT_SUCCESS_TOPIC, "payment.debit.success");
    assert_eq!(DEBIT_FAILED_TOPIC, "payment.debit.failed");
    let success = Outbound::Success(DebitSuccess { debit_id: 1, user_id: 2, amount: 3 });
    assert_eq!(success.topic(), DEBIT_SUCCESS_TOPIC);
    let notice = Outbound::Failed(DebitFailed {
        debit_id: 1,
        user_id: 2,
        amount: 3,
        balance: 4,
        reason: DebitFailureReason::MaximumWaitExceeded,
    });
    assert_eq!(notice.topic(), DEBIT_FAILED_TOPIC);
}

#[test]
fn a_covered_debit_is_taken_at_once() {
    let (mut service, mut tables) = (service(), Tables::default());
    credit(&mut service, &mut tables, ALICE, 100, 0);
    debit(&mut service, &mut tables, request(1, ALICE, 30), 1);
    assert_eq!(tables.balance(ALICE), 70);
    assert_eq!(published(&mut service), vec![ok("ok 1 30")]);
    assert_eq!(tables.debits.len(), 1);
    assert_eq!(tables.debits[0].row.debit_id, repository::key(1));
    assert_eq!(tables.debits[0].row.order_id, repository::key(1_001));
    assert_eq!(tables.debits[0].user_id, repository::key(ALICE));
    assert_eq!(tables.debits[0].row.amount, 30);
}

#[test]
fn a_redelivered_request_is_ignored() {
    let (mut service, mut tables) = (service(), Tables::default());
    credit(&mut service, &mut tables, ALICE, 100, 0);
    debit(&mut service, &mut tables, request(1, ALICE, 30), 1);
    assert_eq!(published(&mut service).len(), 1);
    debit(&mut service, &mut tables, request(1, ALICE, 30), 2);
    debit(&mut service, &mut tables, request(1, ALICE, 99), 3);
    assert_eq!(tables.balance(ALICE), 70);
    assert_eq!(tables.debits.len(), 1);
    assert!(published(&mut service).is_empty());
}

#[test]
fn an_uncovered_debit_waits_for_a_credit() {
    let (mut service, mut tables) = (service(), Tables::default());
    debit(&mut service, &mut tables, request(1, ALICE, 30), 0);
    assert!(published(&mut service).is_empty());
    assert!(tables.debits.is_empty());
    credit(&mut service, &mut tables, ALICE, 20, 10);
    assert_eq!(tables.balance(ALICE), 20);
    assert!(published(&mut service).is_empty());
    credit(&mut service, &mut tables, ALICE, 20, 20);
    assert_eq!(tables.balance(ALICE), 10);
    assert_eq!(published(&mut service), vec![ok("ok 1 30")]);
    // It does not come twice.
    credit(&mut service, &mut tables, ALICE, 100, 30);
    assert_eq!(tables.balance(ALICE), 110);
    assert!(published(&mut service).is_empty());
}

#[test]
fn a_debit_expires_at_its_deadline() {
    let (mut service, mut tables) = (service(), Tables::default());
    credit(&mut service, &mut tables, ALICE, 5, 0);
    debit(&mut service, &mut tables, request(1, ALICE, 30), 0);
    credit(&mut service, &mut tables, ALICE, 100, WAIT);
    assert_eq!(published(&mut service), vec![failed("failed 1 30 105")]);
    assert_eq!(tables.balance(ALICE), 105);
    // It is on record as given up, so that a redelivery is ignored, and no part of the history.
    assert_eq!(tables.abandoned, vec![1]);
    assert!(tables.debits.is_empty());
    debit(&mut service, &mut tables, request(1, ALICE, 30), WAIT + 1);
    assert_eq!(tables.balance(ALICE), 105);
    credit(&mut service, &mut tables, ALICE, 1, WAIT + 2);
    assert!(published(&mut service).is_empty());
}

#[test]
fn a_debit_is_live_until_just_before_its_deadline() {
    let (mut service, mut tables) = (service(), Tables::default());
    debit(&mut service, &mut tables, request(1, ALICE, 30), 0);
    let begun = service.credit(CreditRequest { user_id: ALICE, amount: 100 });
    let just_before = Timestamp { secs: WAIT - 1, nanos: 999_999_999 };
    assert_eq!(run(&mut service, &mut tables, begun, just_before), Action::Finish);
    assert_eq!(published(&mut service), vec![ok("ok 1 30")]);
}

#[test]
fn each_parked_debit_is_looked_at_in_turn() {
    let (mut service, mut tables) = (service(), Tables::default());
    debit(&mut service, &mut tables, request(1, ALICE, 500), 0);
    debit(&mut service, &mut tables, request(2, ALICE, 60), 10);
    debit(&mut service, &mut tables, request(3, ALICE, 50), 20);
    debit(&mut service, &mut tables, request(4, ALICE, 40), 30);
    debit(&mut service, &mut tables, request(5, BOB, 1), 30);
    // The first has expired. The second is covered, the third is not any more, the fourth is.
    credit(&mut service, &mut tables, ALICE, 100, WAIT + 5);
    assert_eq!(tables.balance(ALICE), 0);
    assert_eq!(
        published(&mut service),
        vec![failed("failed 1 500 100"), ok("ok 2 60"), ok("ok 4 40")]
    );
    credit(&mut service, &mut tables, ALICE, 50, WAIT + 6);
    assert_eq!(tables.balance(ALICE), 0);
    assert_eq!(published(&mut service), vec![ok("ok 3 50")]);
    credit(&mut service, &mut tables, BOB, 1, WAIT + 7);
    assert_eq!(published(&mut service), vec![ok("ok 5 1")]);
}

#[test]
fn a_parked_debit_that_is_asked_for_again_is_taken_once() {
    let (mut service, mut tables) = (service(), Tables::default());
    debit(&mut service, &mut tables, request(1, ALICE, 30), 0);
    tables.accounts.insert(repository::key(ALICE), 100);
    debit(&mut service, &mut tables, request(1, ALICE, 30), 1);
    assert_eq!(tables.balance(ALICE), 70);
    credit(&mut service, &mut tables, ALICE, 100, 2);
    assert_eq!(tables.balance(ALICE), 170);
    assert_eq!(published(&mut service), vec![ok("ok 1 30")]);
}

#[test]
fn the_calls_come_in_order() {
    let (mut service, mut tables) = (service(), Tables::default());
    debit(&mut service, &mut tables, request(1, ALICE, 30), 0);
    debit(&mut service, &mut tables, request(2, ALICE, 5), WAIT);
    tables.calls.clear();
    credit(&mut service, &mut tables, ALICE, 9, WAIT);
    assert_eq!(
        tables.calls,
        vec![
            RepoCall::Credit { user_id: ALICE, amount: 9 },
            RepoCall::Balance { user_id: ALICE },
            RepoCall::MarkAbandoned { debit_id: 1 },
            RepoCall::TryDebit { user_id: ALICE, amount: 5 },
            RepoCall::MarkProcessed { debit_id: 2, order_id: 1_002, user_id: ALICE, amount: 5 },
        ]
    );
}

#[test]
fn a_failed_action_ends_the_flow() {
    let mut service = service();
    let (flow, _) = service.credit(CreditRequest { user_id: ALICE, amount: 9 });
    let (flow, action) = service.resume_at(flow, Reply::Failed, at(0));
    assert_eq!(action, Action::Fail(ServiceError::ActionFailed));
    // A flow that has ended takes no reply.
    let (_, action) = service.resume_at(flow, Reply::Done, at(0));
    assert_eq!(action, Action::Fail(ServiceError::UnexpectedReply));
    assert!(published(&mut service).is_empty());
}

#[test]
fn an_expired_debit_stays_parked_until_it_is_on_record() {
    let (mut service, mut tables) = (service(), Tables::default());
    debit(&mut service, &mut tables, request(1, ALICE, 30), 0);
    tables.broken = true;
    let begun = service.credit(CreditRequest { user_id: ALICE, amount: 7 });
    let action = run(&mut service, &mut tables, begun, at(WAIT));
    assert_eq!(action, Action::Fail(ServiceError::ActionFailed));
    assert!(published(&mut service).is_empty());
    // The next credit finds it again, and its notice goes out.
    tables.broken = false;
    credit(&mut service, &mut tables, ALICE, 1, WAIT + 1);
    assert_eq!(published(&mut service), vec![failed("failed 1 30 8")]);
    assert_eq!(tables.abandoned, vec![1]);
    credit(&mut service, &mut tables, ALICE, 1, WAIT + 2);
    assert!(published(&mut service).is_empty());
}

#[test]
fn a_debit_of_amount_zero_is_settled_and_shown() {
    let (mut service, mut tables) = (service(), Tables::default());
    credit(&mut service, &mut tables, ALICE, 5, 0);
    debit(&mut service, &mut tables, request(1, ALICE, 0), 1);
    assert_eq!(published(&mut service), vec![ok("ok 1 0")]);
    let debits = tables.debits.iter().map(|write| write.row.clone()).collect();
    let shown = statement(&vec![], &debits, at(0)).unwrap();
    assert_eq!(shown.len(), 1);
    assert!(matches!(
        shown[0],
        LedgerEntry::Debit { debit_id: 1, order_id: 1_001, amount: 0, .. }
    ));
}

#[test]
fn a_reply_to_another_action_ends_the_flow() {
    let mut service = service();
    let (flow, _) = service.handle_debit_request(request(1, ALICE, 9));
    let (_, action) = service.resume_at(flow, Reply::Debited(true), at(0));
    assert_eq!(action, Action::Fail(ServiceError::UnexpectedReply));
    let (flow, _) = service.credit(CreditRequest { user_id: ALICE, amount: 9 });
    let (_, action) = service.resume_at(flow, Reply::Balance(1), at(0));
    assert_eq!(action, Action::Fail(ServiceError::UnexpectedReply));
}

#[test]
fn a_credit_past_the_largest_balance_fails() {
    let (mut service, mut tables) = (service(), Tables::default());
    credit(&mut service, &mut tables, ALICE, u64::MAX, 0);
    let begun = service.credit(CreditRequest { user_id: ALICE, amount: 1 });
    let action = run(&mut service, &mut tables, begun, at(1));
    assert_eq!(action, Action::Fail(ServiceError::ActionFailed));
    assert_eq!(tables.balance(ALICE), u64::MAX);
}

#[test]
fn a_deadline_past_the_last_instant_is_refused() {
    let (mut service, mut tables) = (service(), Tables::default());
    let begun = service.handle_debit_request(request(1, ALICE, 9));
    let action = run(&mut service, &mut tables, begun, at(LAST_SECOND - WAIT + 1));
    assert_eq!(action, Action::Fail(ServiceError::DeadlineOutOfRange));
    let begun = service.handle_debit_request(request(2, ALICE, 9));
    let action = run(&mut service, &mut tables, begun, at(LAST_SECOND - WAIT));
    assert_eq!(action, Action::Finish);
    // The one whose deadline exists was parked, the other was not.
    credit(&mut service, &mut tables, ALICE, 100, 0);
    assert_eq!(published(&mut service), vec![ok("ok 2 9")]);
}

#[test]
fn a_wait_adds_up_in_nanoseconds() {
    let wait = Span { secs: -1, nanos: 600_000_000 };
    let mut service = PaymentService::new(
        MokaPendingDebitStore::new(100),
        MokaEventStore::new(100),
        wait,
    );
    let mut tables = Tables::default();
    let begun = service.handle_debit_request(request(1, ALICE, 9));
    let now = Timestamp { secs: 50, nanos: 700_000_000 };
    assert_eq!(run(&mut service, &mut tables, begun, now), Action::Finish);
    // The deadline is 0.4 seconds before `now`.
    let begun = service.credit(CreditRequest { user_id: ALICE, amount: 100 });
    let deadline = Timestamp { secs: 50, nanos: 300_000_000 };
    let just_before = Timestamp { secs: 50, nanos: 299_999_999 };
    let (flow, _) = service.resume_at(begun.0, Reply::Done, just_before);
    assert!(format!("{flow:?}").contains("Retrying"));
    let begun = service.credit(CreditRequest { user_id: ALICE, amount: 100 });
    let (flow, _) = service.resume_at(begun.0, Reply::Done, deadline);
    assert!(format!("{flow:?}").contains("Expiring"));
}

#[test]
fn the_clock_decides_where_no_instant_is_given() {
    let mut service = PaymentService::new(
        MokaPendingDebitStore::new(100),
        MokaEventStore::new(100),
        Span { secs: 3_600, nanos: 0 },
    );
    let (flow, _) = service.handle_debit_request(request(1, ALICE, 9));
    let (flow, _) = service.resume(flow, Reply::Processed(false));
    let (_, action) = service.resume(flow, Reply::Debited(false));
    assert_eq!(action, Action::Finish);
    let now = chrono::Utc::now().timestamp();
    let (flow, _) = service.credit(CreditRequest { user_id: ALICE, amount: 9 });
    let (_, action) = service.resume_at(flow, Reply::Done, at(now + 3_590));
    assert_eq!(action, Action::Ask(RepoCall::TryDebit { user_id: ALICE, amount: 9 }));
    let (flow, _) = service.credit(CreditRequest { user_id: ALICE, amount: 9 });
    let (_, action) = service.resume_at(flow, Reply::Done, at(now + 3_610));
    assert_eq!(action, Action::Ask(RepoCall::Balance { user_id: ALICE }));
}

#[test]
fn the_books_balance_and_the_statement_adds_up() {
    let (mut service, mut tables) = (service(), Tables::default());
    let mut received: HashMap<u128, u64> = HashMap::new();
    let mut seed: u64 = 7;
    let mut outcomes: Vec<(String, String)> = Vec::new();
    for n in 0..400i64 {
        seed = seed.wrapping_mul(6_364_136_223_846_793_005).wrapping_add(1_442_695_040_888_963_407);
        let user = if seed >> 63 == 0 { ALICE } else { BOB };
        let amount = (seed >> 40) % 50;
        if (seed >> 20) % 3 == 0 {
            *received.entry(user).or_default() += amount;
            credit(&mut service, &mut tables, user, amount, n * 20);
        } else {
            let id = 1 + u128::from((seed >> 10) % 150);
            debit(&mut service, &mut tables, request(id, user, amount), n * 20);
        }
        outcomes.extend(published(&mut service));
    }
    // Each debit has one outcome.
    let mut subjects: Vec<&str> =
        outcomes.iter().map(|(_, text)| text.split(' ').nth(1).unwrap()).collect();
    let total = subjects.len();
    subjects.sort();
    subjects.dedup();
    assert_eq!(subjects.len(), total);
    assert_eq!(tables.debits.len() + tables.abandoned.len(), total);
    assert!(outcomes.iter().any(|(topic, _)| topic == "payment.debit.failed"));
    assert!(outcomes.iter().any(|(topic, _)| topic == "payment.debit.success"));
    // The statement of each user adds up to the balance.
    for user in [ALICE, BOB] {
        let key = repository::key(user);
        let credits = tables
            .credits
            .iter()
            .filter(|write| write.user_id == key)
            .map(|write| write.row.clone())
            .collect();
        let debits = tables
            .debits
            .iter()
            .filter(|write| write.user_id == key)
            .map(|write| write.row.clone())
            .collect();
        let mut net: i64 = 0;
        let mut spent: u64 = 0;
        for entry in statement(&credits, &debits, at(0)).unwrap() {
            match entry {
                LedgerEntry::Credit { amount, .. } => net += amount as i64,
                LedgerEntry::Debit { amount, .. } => {
                    net -= amount as i64;
                    spent += amount;
                }
            }
        }
        assert_eq!(net as u64, tables.balance(user));
        assert_eq!(received[&user], tables.balance(user) + spent);
    }
}

#[test]
fn requests_are_idempotent_and_no_payable_debit_waits() {
    let (mut service, mut tables) = (service(), Tables::default());
    let users = [ALICE, BOB];
    let mut seed: u64 = 11;
    let mut taken: HashMap<u128, u64> = HashMap::new();
    let mut told: HashMap<u128, u64> = HashMap::new();
    for n in 0..300i64 {
        seed = seed.wrapping_mul(6_364_136_223_846_793_005).wrapping_add(1_442_695_040_888_963_407);
        // Each debit always comes with the same user and amount.
        let id = 1 + u128::from((seed >> 10) % 60);
        let req = request(id, users[(id % 2) as usize], 1 + (id as u64 * 7) % 40);
        tables.calls.clear();
        if (seed >> 40) % 4 == 0 {
            credit(&mut service, &mut tables, users[(seed >> 63) as usize], (seed >> 45) % 30, n);
        } else {
            debit(&mut service, &mut tables, req, n);
        }
        for call in &tables.calls {
            if let RepoCall::MarkProcessed { debit_id, amount, .. } = call {
                *taken.entry(*debit_id).or_default() += amount;
            }
        }
        for (topic, text) in published(&mut service) {
            assert_eq!(topic, DEBIT_SUCCESS_TOPIC);
            let words: Vec<&str> = text.split(' ').collect();
            let amount: u64 = words[2].parse().unwrap();
            assert_eq!(told.insert(words[1].parse().unwrap(), amount), None);
        }
        // A credit of nothing has the parked debits looked at, and none can be taken.
        for user in users {
            let before = tables.balance(user);
            credit(&mut service, &mut tables, user, 0, n);
            assert_eq!(tables.balance(user), before);
            assert!(published(&mut service).is_empty());
        }
    }
    assert!(told.len() > 10);
    assert_eq!(taken, told);
    for (id, amount) in &told {
        assert_eq!(*amount, 1 + (*id as u64 * 7) % 40);
    }
}

#[test]
fn marking_a_debit_twice_marks_it_once() {
    let mut tables = Tables::default();
    let first = RepoCall::MarkProcessed { debit_id: 1, order_id: 2, user_id: ALICE, amount: 3 };
    let again = RepoCall::MarkProcessed { debit_id: 1, order_id: 9, user_id: BOB, amount: 8 };
    tables.answer(first);
    tables.answer(again);
    assert_eq!(tables.debits.len(), 1);
    assert_eq!(tables.debits[0].row.amount, 3);
    assert!(matches!(
        tables.answer(RepoCall::DebitProcessed { debit_id: 1 }),
        Reply::Processed(true)
    ));
    assert!(matches!(
        tables.answer(RepoCall::DebitProcessed { debit_id: 2 }),
        Reply::Processed(false)
    ));
}
