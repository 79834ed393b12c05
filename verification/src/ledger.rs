//! What holds of the service and its tables together: where the money is, and that each debit
//! has one outcome.
//!
//! A [`World`] is the tables, the stores and one flow. A [`turn`] carries out the action of the
//! flow and takes the flow on with what came of it; [`PaymentService::resume_at`] is such a turn
//! as seen from the service.
//!
//! [`PaymentService::resume_at`]: crate::service::PaymentService::resume_at

use crate::event_store::Queued;
use crate::models::{CreditRequest, DebitRequest, DebitSuccess, PendingDebit};
use crate::pending_laws::{
    distinct, law_discarding_keeps_sound, law_lookup_is_right, law_parking_keeps_sound, sound,
};
use crate::pending_store::{parked_for, parked_without, parks, Parked};
use crate::repository::{balance_in, credited, debited};
use crate::service::{
    carried_out, closed, decide, deferred, next_debit, Action, FlowView, Outbound,
    RepoCall, Reply, ServiceError, Stage,
};
use crate::time::{later, Span, Timestamp};
use vstd::prelude::*;

verus! {

/// A booked credit.
pub struct Credit {
    pub user_id: u128,
    pub amount: u64,
}

/// A processed debit on record, with what it took from the account.
pub struct Processed {
    pub debit_id: u128,
    pub order_id: u128,
    pub user_id: u128,
    pub amount: u64,
}

/// What the tables hold.
pub struct Books {
    /// The account rows by user.
    pub accounts: Map<u128, i64>,
    /// The credits, in the order in which they were booked.
    pub credits: Seq<Credit>,
    /// The processed debits, in the order in which they were put on record.
    pub processed: Seq<Processed>,
    /// The ids of the debits that were given up.
    pub abandoned: Set<u128>,
}

/// The account row of `user_id`, if there is one.
pub open spec fn row_of(books: Books, user_id: u128) -> Option<i64> {
    if books.accounts.contains_key(user_id) {
        Some(books.accounts[user_id])
    } else {
        None
    }
}

/// The balance of `user_id`.
pub open spec fn balance_of(books: Books, user_id: u128) -> u64 {
    balance_in(row_of(books, user_id))
}

/// Whether `debit_id` is on record as processed.
pub open spec fn is_processed(books: Books, debit_id: u128) -> bool {
    exists|i: int|
        0 <= i < books.processed.len() && (#[trigger] books.processed[i]).debit_id == debit_id
}

/// Whether `debit_id` is on record, as processed or as given up.
pub open spec fn on_record(books: Books, debit_id: u128) -> bool {
    is_processed(books, debit_id) || books.abandoned.contains(debit_id)
}

/// All that was credited to `user_id`.
pub open spec fn received(credits: Seq<Credit>, user_id: u128) -> int
    decreases credits.len(),
{
    if credits.len() == 0 {
        0
    } else {
        received(credits.drop_last(), user_id) + if credits.last().user_id == user_id {
            credits.last().amount as int
        } else {
            0
        }
    }
}

/// All that processed debits took from `user_id`.
pub open spec fn spent(processed: Seq<Processed>, user_id: u128) -> int
    decreases processed.len(),
{
    if processed.len() == 0 {
        0
    } else {
        spent(processed.drop_last(), user_id) + if processed.last().user_id == user_id {
            processed.last().amount as int
        } else {
            0
        }
    }
}

/// What a call does to the tables, and what comes of it.
pub open spec fn answer(books: Books, call: RepoCall) -> (Books, Reply) {
    match call {
        RepoCall::Credit { user_id, amount } => match credited(row_of(books, user_id), amount) {
            Some(row) => (
                Books {
                    accounts: books.accounts.insert(user_id, row),
                    credits: books.credits.push(Credit { user_id, amount }),
                    ..books
                },
                Reply::Done,
            ),
            None => (books, Reply::Failed),
        },
        RepoCall::Balance { user_id } => (books, Reply::Balance(balance_of(books, user_id))),
        RepoCall::TryDebit { user_id, amount } => match debited(row_of(books, user_id), amount) {
            Some(row) => (
                Books { accounts: books.accounts.insert(user_id, row), ..books },
                Reply::Debited(true),
            ),
            None => (books, Reply::Debited(false)),
        },
        RepoCall::DebitProcessed { debit_id } => (
            books,
            Reply::Processed(on_record(books, debit_id)),
        ),
        RepoCall::MarkProcessed { debit_id, order_id, user_id, amount } => if is_processed(
            books,
            debit_id,
        ) {
            (books, Reply::Done)
        } else {
            (
                Books {
                    processed: books.processed.push(
                        Processed { debit_id, order_id, user_id, amount },
                    ),
                    ..books
                },
                Reply::Done,
            )
        },
        RepoCall::MarkAbandoned { debit_id } => (
            Books { abandoned: books.abandoned.insert(debit_id), ..books },
            Reply::Done,
        ),
    }
}

/// The tables, the stores and one flow, with the events that were handed out so far.
pub struct World {
    pub books: Books,
    pub parked: Parked,
    pub queued: Queued,
    pub flow: FlowView,
    pub action: Action,
    pub sent: Seq<Outbound>,
}

/// What carrying out the action of `w` does to the tables, and what comes of it; `text` is the
/// JSON of the event, if there is one to encode.
pub open spec fn carried(w: World, text: String) -> (Books, Reply) {
    match w.action {
        Action::Ask(call) => answer(w.books, call),
        _ => (w.books, Reply::Payload(text)),
    }
}

/// The events handed out once the action of `w` is carried out.
pub open spec fn sent_after(w: World) -> Seq<Outbound> {
    match w.action {
        Action::Encode(event) => w.sent.push(event),
        _ => w.sent,
    }
}

/// The flow of `w` still waits for an action.
pub open spec fn running(w: World) -> bool {
    w.action is Ask || w.action is Encode
}

/// `next` is `w` after the action of its flow is carried out and the flow is taken on at `now`.
pub open spec fn turn(w: World, text: String, now: Timestamp, wait: Span, next: World) -> bool {
    let (books, reply) = carried(w, text);
    let decision = decide(w.flow, reply, now, wait, w.parked);
    &&& running(w)
    &&& next.books == books
    &&& next.flow == decision.flow
    &&& next.action == decision.action
    &&& next.sent == sent_after(w)
    &&& carried_out(decision.effect, w.parked, next.parked, w.queued, next.queued)
}

/// `next` is `w` after the action of its flow could not be carried out.
pub open spec fn breaks(w: World, now: Timestamp, wait: Span, next: World) -> bool {
    let decision = decide(w.flow, Reply::Failed, now, wait, w.parked);
    &&& running(w)
    &&& next.books == w.books
    &&& next.flow == decision.flow
    &&& next.action == decision.action
    &&& next.sent == w.sent
    &&& carried_out(decision.effect, w.parked, next.parked, w.queued, next.queued)
}

/// `next` is `w` after a credit is begun in it.
pub open spec fn begins_credit(w: World, req: CreditRequest, next: World) -> bool {
    &&& !running(w)
    &&& next == (World {
        flow: FlowView {
            stage: Stage::Crediting { user_id: req.user_id },
            rest: Seq::empty(),
        },
        action: Action::Ask(RepoCall::Credit { user_id: req.user_id, amount: req.amount }),
        ..w
    })
}

/// `next` is `w` after a debit is begun in it.
pub open spec fn begins_debit(w: World, req: DebitRequest, next: World) -> bool {
    &&& !running(w)
    &&& next == (World {
        flow: FlowView { stage: Stage::Checking { request: req }, rest: Seq::empty() },
        action: Action::Ask(RepoCall::DebitProcessed { debit_id: req.debit_id }),
        ..w
    })
}

/// A world in which nothing has happened yet.
pub open spec fn fresh(w: World) -> bool {
    &&& w.books.accounts == Map::<u128, i64>::empty()
    &&& w.books.credits == Seq::<Credit>::empty()
    &&& w.books.processed == Seq::<Processed>::empty()
    &&& w.books.abandoned == Set::<u128>::empty()
    &&& w.parked.debits == Map::<u128, PendingDebit>::empty()
    &&& w.parked.index == Map::<u128, Seq<u128>>::empty()
    &&& w.flow == closed()
    &&& w.action == Action::Finish
    &&& w.sent == Seq::<Outbound>::empty()
}

/// What was taken from `user_id` and is not on record yet.
pub open spec fn in_flight(flow: FlowView, user_id: u128) -> int {
    match flow.stage {
        Stage::Settling { success } => if success.user_id == user_id {
            success.amount as int
        } else {
            0
        },
        _ => 0,
    }
}

/// What of the credits of `user_id` is neither on the account, nor on record as spent, nor on
/// its way there.
pub open spec fn unaccounted(w: World, user_id: u128) -> int {
    received(w.books.credits, user_id) - balance_of(w.books, user_id) - spent(
        w.books.processed,
        user_id,
    ) - in_flight(w.flow, user_id)
}

/// No two processed debits on record have one id, and none was given up.
pub open spec fn single_records(books: Books) -> bool {
    &&& forall|i: int, j: int|
        0 <= i < j < books.processed.len() ==> (#[trigger] books.processed[i]).debit_id != (
        #[trigger] books.processed[j]).debit_id
    &&& forall|i: int|
        0 <= i < books.processed.len() ==> !books.abandoned.contains(
            (#[trigger] books.processed[i]).debit_id,
        )
}

/// None of `debits` is on record.
pub open spec fn none_on_record(books: Books, debits: Seq<PendingDebit>) -> bool {
    forall|i: int| 0 <= i < debits.len() ==> !on_record(books, (#[trigger] debits[i]).debit_id)
}

/// None of `debits` has the id `debit_id`.
pub open spec fn without(debits: Seq<PendingDebit>, debit_id: u128) -> bool {
    forall|i: int| 0 <= i < debits.len() ==> (#[trigger] debits[i]).debit_id != debit_id
}

/// What is on record of the debit that `event` is about is what `event` says: that it was
/// processed and took its amount, or that it was given up.
pub open spec fn recorded(books: Books, event: Outbound) -> bool {
    match event {
        Outbound::Success(success) => exists|i: int|
            0 <= i < books.processed.len() && tells(#[trigger] books.processed[i], success),
        Outbound::Failed(failed) => books.abandoned.contains(failed.debit_id),
    }
}

/// `record` says what `success` says.
pub open spec fn tells(record: Processed, success: DebitSuccess) -> bool {
    &&& record.debit_id == success.debit_id
    &&& record.user_id == success.user_id
    &&& record.amount == success.amount
}

/// No event of `sent` is about the debit `debit_id`.
pub open spec fn silent(sent: Seq<Outbound>, debit_id: u128) -> bool {
    forall|i: int| 0 <= i < sent.len() ==> (#[trigger] sent[i]).subject() != debit_id
}

/// The debit `debit_id` has no outcome yet, and is not among those still to be looked at.
pub open spec fn open_debit(w: World, debit_id: u128) -> bool {
    !on_record(w.books, debit_id) && without(w.flow.rest, debit_id)
}

/// The action fits the stage of the flow.
pub open spec fn in_step(w: World) -> bool {
    match (w.flow.stage, w.action) {
        (Stage::Crediting { user_id }, Action::Ask(RepoCall::Credit { user_id: u, .. })) => user_id
            == u && w.flow.rest.len() == 0,
        (Stage::Checking { request }, Action::Ask(RepoCall::DebitProcessed { debit_id })) =>
        debit_id == request.debit_id && w.flow.rest.len() == 0,
        (Stage::Debiting { request }, Action::Ask(RepoCall::TryDebit { user_id, amount })) =>
        user_id == request.user_id && amount == request.amount && open_debit(w, request.debit_id)
            && w.flow.rest.len() == 0,
        (Stage::Retrying { debit }, Action::Ask(RepoCall::TryDebit { user_id, amount })) => user_id
            == debit.user_id && amount == debit.amount && open_debit(w, debit.debit_id),
        (Stage::Expiring { debit }, Action::Ask(RepoCall::Balance { user_id })) => user_id
            == debit.user_id && open_debit(w, debit.debit_id),
        (
            Stage::Settling { success },
            Action::Ask(RepoCall::MarkProcessed { debit_id, user_id, amount, .. }),
        ) => debit_id == success.debit_id && user_id == success.user_id && amount == success.amount
            && open_debit(w, debit_id) && !w.parked.debits.contains_key(debit_id),
        (Stage::Abandoning { failed }, Action::Ask(RepoCall::MarkAbandoned { debit_id })) =>
        debit_id == failed.debit_id && open_debit(w, debit_id),
        (Stage::Announcing { event }, Action::Encode(e)) => e == event && recorded(w.books, event)
            && silent(w.sent, event.subject()),
        (Stage::Closed, Action::Finish) => w.flow.rest.len() == 0,
        (Stage::Closed, Action::Fail(_)) => w.flow.rest.len() == 0,
        _ => false,
    }
}

/// The order that the service keeps: a debit with an outcome is on record, once, and neither
/// parked nor about to be tried; an event was sent at most once for each debit, and the record
/// bears it out.
pub open spec fn orderly(w: World) -> bool {
    &&& sound(w.parked)
    &&& single_records(w.books)
    &&& forall|id: u128| #[trigger]
        w.parked.debits.contains_key(id) ==> !on_record(w.books, id)
    &&& distinct(w.flow.rest)
    &&& none_on_record(w.books, w.flow.rest)
    &&& in_step(w)
    &&& forall|i: int| 0 <= i < w.sent.len() ==> recorded(w.books, #[trigger] w.sent[i])
    &&& forall|i: int, j: int|
        0 <= i < j < w.sent.len() ==> (#[trigger] w.sent[i]).subject() != (
        #[trigger] w.sent[j]).subject()
}

/// A fresh world is orderly, and all its money is accounted for.
pub proof fn law_fresh_is_orderly(w: World, user_id: u128)
    requires
        fresh(w),
    ensures
        orderly(w),
        unaccounted(w, user_id) == 0,
{
}

/// Beginning a credit keeps order, and the money where it is.
pub proof fn law_credit_begins_orderly(w: World, req: CreditRequest, next: World, user_id: u128)
    requires
        orderly(w),
        begins_credit(w, req, next),
    ensures
        orderly(next),
        unaccounted(next, user_id) == unaccounted(w, user_id),
{
}

/// Beginning a debit keeps order, and the money where it is.
pub proof fn law_debit_begins_orderly(w: World, req: DebitRequest, next: World, user_id: u128)
    requires
        orderly(w),
        begins_debit(w, req, next),
    ensures
        orderly(next),
        unaccounted(next, user_id) == unaccounted(w, user_id),
{
}

/// The debit that `call` puts on record, if it puts one there.
pub open spec fn marks(call: RepoCall) -> Option<u128> {
    match call {
        RepoCall::MarkProcessed { debit_id, .. } => Some(debit_id),
        RepoCall::MarkAbandoned { debit_id } => Some(debit_id),
        _ => None,
    }
}

/// What was on record stays on record, and only a newly marked debit joins it.
proof fn lemma_records_grow(books: Books, call: RepoCall)
    ensures
        forall|id: u128| #[trigger]
            on_record(answer(books, call).0, id) <==> on_record(books, id) || marks(call) == Some(
                id,
            ),
        forall|event: Outbound| recorded(books, event) ==> #[trigger] recorded(
            answer(books, call).0,
            event,
        ),
        single_records(books) && (marks(call) matches Some(id) ==> !on_record(books, id))
            ==> single_records(answer(books, call).0),
{
    let after = answer(books, call).0;
    if let RepoCall::MarkProcessed { debit_id, order_id, user_id, amount } = call {
        if !is_processed(books, debit_id) {
            let n = books.processed.len() as int;
            assert(after.processed[n].debit_id == debit_id);
            assert forall|id: u128| #[trigger] on_record(after, id) <==> on_record(books, id) || id
                == debit_id by {
                if is_processed(books, id) {
                    let i = choose|i: int|
                        0 <= i < n && (#[trigger] books.processed[i]).debit_id == id;
                    assert(after.processed[i].debit_id == id);
                }
                if is_processed(after, id) && id != debit_id {
                    let i = choose|i: int|
                        0 <= i < after.processed.len() && (
                        #[trigger] after.processed[i]).debit_id == id;
                    assert(books.processed[i].debit_id == id);
                }
            }
            assert forall|event: Outbound| recorded(books, event) implies #[trigger] recorded(
                after,
                event,
            ) by {
                if let Outbound::Success(success) = event {
                    let i = choose|i: int|
                        0 <= i < n && tells(#[trigger] books.processed[i], success);
                    assert(tells(after.processed[i], success));
                }
            }
            if single_records(books) && !on_record(books, debit_id) {
                assert forall|i: int, j: int| 0 <= i < j < after.processed.len() implies (
                #[trigger] after.processed[i]).debit_id != (
                #[trigger] after.processed[j]).debit_id by {
                    assert(after.processed[i] == books.processed[i]);
                    if j < n {
                        assert(after.processed[j] == books.processed[j]);
                    }
                }
                assert forall|i: int| 0 <= i < after.processed.len() implies
                    !after.abandoned.contains((#[trigger] after.processed[i]).debit_id) by {
                    if i < n {
                        assert(after.processed[i] == books.processed[i]);
                    }
                }
            }
        }
    }
}

/// An event that is recorded is about a debit on record.
proof fn lemma_recorded_is_on_record(books: Books, event: Outbound)
    requires
        recorded(books, event),
    ensures
        on_record(books, event.subject()),
{
    if let Outbound::Success(success) = event {
        let i = choose|i: int|
            0 <= i < books.processed.len() && tells(#[trigger] books.processed[i], success);
        assert(books.processed[i].debit_id == event.subject());
    }
}

/// Turning to the next of `rest` keeps order.
proof fn lemma_next_is_orderly(w: World, rest: Seq<PendingDebit>, now: Timestamp)
    requires
        sound(w.parked),
        single_records(w.books),
        forall|id: u128| #[trigger]
            w.parked.debits.contains_key(id) ==> !on_record(w.books, id),
        distinct(rest),
        none_on_record(w.books, rest),
        w.flow == next_debit(rest, now).0,
        w.action == next_debit(rest, now).1,
        forall|i: int| 0 <= i < w.sent.len() ==> recorded(w.books, #[trigger] w.sent[i]),
        forall|i: int, j: int|
            0 <= i < j < w.sent.len() ==> (#[trigger] w.sent[i]).subject() != (
            #[trigger] w.sent[j]).subject(),
    ensures
        orderly(w),
{
    if rest.len() > 0 {
        let tail = rest.skip(1);
        assert(tail == w.flow.rest);
        assert forall|i: int| 0 <= i < tail.len() implies (#[trigger] tail[i]).debit_id
            != rest[0].debit_id && !on_record(w.books, tail[i].debit_id) by {
            assert(tail[i] == rest[i + 1]);
        }
        assert forall|i: int, j: int| 0 <= i < j < tail.len() implies (
        #[trigger] tail[i]).debit_id != (#[trigger] tail[j]).debit_id by {
            assert(tail[i] == rest[i + 1] && tail[j] == rest[j + 1]);
        }
        assert(!on_record(w.books, rest[0].debit_id));
    }
}

/// Every turn keeps order.
pub proof fn law_turn_keeps_order(
    w: World,
    text: String,
    now: Timestamp,
    wait: Span,
    next: World,
)
    requires
        orderly(w),
        turn(w, text, now, wait, next),
    ensures
        orderly(next),
{
    if let Action::Ask(call) = w.action {
        lemma_records_grow(w.books, call);
    }
    match w.flow.stage {
        Stage::Crediting { user_id } => {
            if carried(w, text).1 is Done {
                let rest = parked_for(w.parked, user_id);
                law_lookup_is_right(w.parked, user_id);
                lemma_next_is_orderly(next, rest, now);
            }
        },
        Stage::Checking { request } => {},
        Stage::Debiting { request } => {
            if carried(w, text).1 == Reply::Debited(true) {
                law_discarding_keeps_sound(w.parked, request.debit_id);
            } else {
                match later(now, wait) {
                    Some(expires_at) => {
                        law_parking_keeps_sound(
                            w.parked,
                            deferred(request, expires_at),
                            next.parked,
                        );
                    },
                    None => {},
                }
            }
        },
        Stage::Retrying { debit } => {
            if carried(w, text).1 == Reply::Debited(true) {
                law_discarding_keeps_sound(w.parked, debit.debit_id);
            } else {
                lemma_next_is_orderly(next, w.flow.rest, now);
            }
        },
        Stage::Expiring { debit } => {},
        Stage::Settling { success } => {
            let n = w.books.processed.len() as int;
            assert(tells(next.books.processed[n], success));
            lemma_not_sent(w, success.debit_id);
        },
        Stage::Abandoning { failed } => {
            law_discarding_keeps_sound(w.parked, failed.debit_id);
            lemma_not_sent(w, failed.debit_id);
        },
        Stage::Announcing { event } => {
            lemma_next_is_orderly(next, w.flow.rest, now);
        },
        Stage::Closed => {},
    }
}

/// No event was sent about a debit that is not on record.
proof fn lemma_not_sent(w: World, debit_id: u128)
    requires
        orderly(w),
        !on_record(w.books, debit_id),
    ensures
        silent(w.sent, debit_id),
{
    assert forall|i: int| 0 <= i < w.sent.len() implies (#[trigger] w.sent[i]).subject()
        != debit_id by {
        lemma_recorded_is_on_record(w.books, w.sent[i]);
    }
}

/// No turn makes money or loses it: what is unaccounted for stays as it is.
pub proof fn law_turn_keeps_account(
    w: World,
    text: String,
    now: Timestamp,
    wait: Span,
    next: World,
    user_id: u128,
)
    requires
        orderly(w),
        turn(w, text, now, wait, next),
    ensures
        unaccounted(next, user_id) == unaccounted(w, user_id),
{
    if let Action::Ask(call) = w.action {
        match call {
            RepoCall::Credit { user_id: u, amount } => {
                assert(w.books.credits.push(Credit { user_id: u, amount }).drop_last()
                    =~= w.books.credits);
            },
            RepoCall::MarkProcessed { debit_id, order_id, user_id: u, amount } => {
                assert(w.books.processed.push(
                    Processed { debit_id, order_id, user_id: u, amount },
                ).drop_last() =~= w.books.processed);
            },
            _ => {},
        }
    }
}

/// An action that could not be carried out ends the flow and changes nothing else. Order is
/// kept, and at most what was taken and not yet put on record becomes unaccounted for.
pub proof fn law_failure_keeps_order(
    w: World,
    now: Timestamp,
    wait: Span,
    next: World,
    user_id: u128,
)
    requires
        orderly(w),
        breaks(w, now, wait, next),
    ensures
        orderly(next),
        next == (World {
            flow: closed(),
            action: Action::Fail(ServiceError::ActionFailed),
            ..w
        }),
        unaccounted(next, user_id) == unaccounted(w, user_id) + in_flight(w.flow, user_id),
{
}

/// Between flows, where nothing is unaccounted for, the credits of a user are what is on the
/// account and what is on record as spent.
pub proof fn law_books_balance(w: World, user_id: u128)
    requires
        orderly(w),
        !running(w),
        unaccounted(w, user_id) == 0,
    ensures
        received(w.books.credits, user_id) == balance_of(w.books, user_id) + spent(
            w.books.processed,
            user_id,
        ),
{
}

/// A debit has at most one outcome: no two events are about the same debit. One that succeeded
/// is on record as processed, once and as its event says, and not as given up; one that failed
/// is on record as given up, and not as processed.
pub proof fn law_one_outcome(w: World, i: int, j: int)
    requires
        orderly(w),
        0 <= i < w.sent.len(),
        0 <= j < w.sent.len(),
    ensures
        w.sent[i].subject() == w.sent[j].subject() ==> i == j,
        w.sent[i] matches Outbound::Success(success) ==> {
            &&& exists|k: int|
                0 <= k < w.books.processed.len() && tells(#[trigger] w.books.processed[k], success)
            &&& forall|k: int|
                0 <= k < w.books.processed.len() && (#[trigger] w.books.processed[k]).debit_id
                    == success.debit_id ==> tells(w.books.processed[k], success)
            &&& !w.books.abandoned.contains(success.debit_id)
        },
        w.sent[i] matches Outbound::Failed(failed) ==> w.books.abandoned.contains(failed.debit_id)
            && !is_processed(w.books, failed.debit_id),
{
    assert(recorded(w.books, w.sent[i]));
    if let Outbound::Success(success) = w.sent[i] {
        let k = choose|k: int|
            0 <= k < w.books.processed.len() && tells(#[trigger] w.books.processed[k], success);
        assert(w.books.processed[k].debit_id == success.debit_id);
    }
}

/// A request whose debit is on record is ignored: the flow is done, and nothing has changed.
pub proof fn law_processed_is_ignored(
    w: World,
    req: DebitRequest,
    begun: World,
    text: String,
    now: Timestamp,
    wait: Span,
    next: World,
)
    requires
        on_record(w.books, req.debit_id),
        begins_debit(w, req, begun),
        turn(begun, text, now, wait, next),
    ensures
        next == (World { flow: closed(), action: Action::Finish, ..w }),
{
}

/// A parked debit is tried only before its deadline, and given up only from then on.
pub proof fn law_deadline_decides(
    w: World,
    text: String,
    now: Timestamp,
    wait: Span,
    next: World,
)
    requires
        turn(w, text, now, wait, next),
    ensures
        next.flow.stage matches Stage::Retrying { debit } ==> now.before(debit.expires_at),
        next.flow.stage matches Stage::Expiring { debit } ==> !now.before(debit.expires_at),
{
}

/// Giving a debit up takes nothing from any account and leaves the debit history alone. Its
/// notice carries the balance of the moment, and the debit stays parked until it is on record.
pub proof fn law_expired_is_not_charged(
    w: World,
    text: String,
    now: Timestamp,
    wait: Span,
    next: World,
)
    requires
        orderly(w),
        turn(w, text, now, wait, next),
        w.flow.stage is Expiring || w.flow.stage is Abandoning,
    ensures
        next.books.accounts == w.books.accounts,
        next.books.processed == w.books.processed,
        w.flow.stage matches Stage::Expiring { debit } ==> {
            &&& next.flow.stage matches Stage::Abandoning { failed }
            &&& failed.debit_id == debit.debit_id
            &&& failed.amount == debit.amount
            &&& failed.balance == balance_of(w.books, debit.user_id)
            &&& next.parked == w.parked
        },
        w.flow.stage matches Stage::Abandoning { failed } ==> {
            &&& next.action == Action::Encode(Outbound::Failed(failed))
            &&& next.books.abandoned.contains(failed.debit_id)
            &&& next.parked == parked_without(w.parked, failed.debit_id)
        },
{
}

/// A live parked debit that the balance does not cover stays parked, and takes nothing.
pub proof fn law_uncovered_stays_parked(
    w: World,
    debit: PendingDebit,
    text: String,
    now: Timestamp,
    wait: Span,
    next: World,
)
    requires
        orderly(w),
        turn(w, text, now, wait, next),
        w.flow.stage == (Stage::Retrying { debit }),
        balance_of(w.books, debit.user_id) < debit.amount,
    ensures
        next.books == w.books,
        next.parked == w.parked,
        next.queued == w.queued,
{
}

/// A live parked debit that the balance covers takes its amount and leaves the parked ones.
pub proof fn law_covered_is_taken(
    w: World,
    debit: PendingDebit,
    text: String,
    now: Timestamp,
    wait: Span,
    next: World,
)
    requires
        orderly(w),
        turn(w, text, now, wait, next),
        w.flow.stage == (Stage::Retrying { debit }),
        w.books.accounts.contains_key(debit.user_id),
        debit.amount <= balance_of(w.books, debit.user_id),
    ensures
        balance_of(next.books, debit.user_id) == balance_of(w.books, debit.user_id)
            - debit.amount,
        next.parked == parked_without(w.parked, debit.debit_id),
        next.flow.stage matches Stage::Settling { success } && success.debit_id == debit.debit_id
            && success.amount == debit.amount,
{
}

/// A new debit that the balance does not cover is parked until the longest wait is over.
pub proof fn law_uncovered_is_parked(
    w: World,
    request: DebitRequest,
    text: String,
    now: Timestamp,
    wait: Span,
    next: World,
)
    requires
        orderly(w),
        turn(w, text, now, wait, next),
        w.flow.stage == (Stage::Debiting { request }),
        balance_of(w.books, request.user_id) < request.amount,
        later(now, wait) is Some,
    ensures
        next.books == w.books,
        next.queued == w.queued,
        next.action == Action::Finish,
        parks(w.parked, deferred(request, later(now, wait)->0), next.parked),
{
}

/// How many turns a flow takes at most.
pub open spec fn turns_left(w: World) -> nat {
    4 * w.flow.rest.len() + match w.flow.stage {
        Stage::Crediting { user_id } => 1 + 4 * parked_for(w.parked, user_id).len(),
        Stage::Checking { .. } => 4,
        Stage::Debiting { .. } => 3,
        Stage::Retrying { .. } => 3,
        Stage::Expiring { .. } => 3,
        Stage::Settling { .. } => 2,
        Stage::Abandoning { .. } => 2,
        Stage::Announcing { .. } => 1,
        Stage::Closed => 0,
    }
}

/// Every flow ends: with each turn fewer are left.
pub proof fn law_flows_end(w: World, text: String, now: Timestamp, wait: Span, next: World)
    requires
        orderly(w),
        turn(w, text, now, wait, next),
    ensures
        turns_left(next) < turns_left(w),
{
}

/// The balance after a credit is the balance before it and the amount, and no other balance
/// changes.
pub proof fn law_credit_is_read_back(books: Books, user_id: u128, amount: u64, other: u128)
    requires
        balance_of(books, user_id) + amount <= u64::MAX,
    ensures
        ({
            let (after, reply) = answer(books, RepoCall::Credit { user_id, amount });
            &&& reply is Done
            &&& balance_of(after, user_id) == balance_of(books, user_id) + amount
            &&& other != user_id ==> balance_of(after, other) == balance_of(books, other)
        }),
{
}

/// A debit that is taken lowers the balance by its amount; one that is not changes nothing. It
/// is taken exactly where there is an account and its balance suffices.
pub proof fn law_debit_is_read_back(books: Books, user_id: u128, amount: u64, other: u128)
    ensures
        ({
            let (after, reply) = answer(books, RepoCall::TryDebit { user_id, amount });
            let taken = books.accounts.contains_key(user_id) && amount <= balance_of(
                books,
                user_id,
            );
            &&& reply == Reply::Debited(taken)
            &&& taken ==> balance_of(after, user_id) == balance_of(books, user_id) - amount
            &&& !taken ==> after == books
            &&& other != user_id ==> balance_of(after, other) == balance_of(books, other)
        }),
{
}

/// A debit that was put on record is found on record, and putting it there again changes
/// nothing. No balance changes, and no other debit is found on record that was not before.
pub proof fn law_marking_is_idempotent(
    books: Books,
    debit_id: u128,
    order_id: u128,
    user_id: u128,
    amount: u64,
    again: RepoCall,
    other: u128,
)
    requires
        again matches RepoCall::MarkProcessed { debit_id: id, .. } && id == debit_id,
    ensures
        ({
            let call = RepoCall::MarkProcessed { debit_id, order_id, user_id, amount };
            let after = answer(books, call).0;
            &&& answer(after, RepoCall::DebitProcessed { debit_id }).1 == Reply::Processed(true)
            &&& answer(after, again).0 == after
            &&& after.accounts == books.accounts
            &&& after.credits == books.credits
            &&& other != debit_id ==> on_record(after, other) == on_record(books, other)
        }),
{
    let call = RepoCall::MarkProcessed { debit_id, order_id, user_id, amount };
    lemma_records_grow(books, call);
    if !is_processed(books, debit_id) {
        let after = answer(books, call).0;
        assert(after.processed[books.processed.len() as int].debit_id == debit_id);
    }
}

/// A debit that was put on record as given up is found on record, and putting it there again
/// changes nothing.
pub proof fn law_abandoning_is_idempotent(books: Books, debit_id: u128, other: u128)
    ensures
        ({
            let call = RepoCall::MarkAbandoned { debit_id };
            let after = answer(books, call).0;
            &&& answer(after, RepoCall::DebitProcessed { debit_id }).1 == Reply::Processed(true)
            &&& answer(after, call).0 == after
            &&& after == (Books { abandoned: after.abandoned, ..books })
            &&& other != debit_id ==> on_record(after, other) == on_record(books, other)
        }),
{
    let call = RepoCall::MarkAbandoned { debit_id };
    lemma_records_grow(books, call);
    assert(books.abandoned.insert(debit_id).insert(debit_id) =~= books.abandoned.insert(debit_id));
}

/// Something that can happen to a world.
pub enum Step {
    /// A credit is begun.
    Credit(CreditRequest),
    /// A debit is begun.
    Debit(DebitRequest),
    /// The action of the flow is carried out, and the flow is taken on.
    Turn { text: String, now: Timestamp, wait: Span },
    /// The action of the flow cannot be carried out.
    Break { now: Timestamp, wait: Span },
    /// Queued events are taken out to be published.
    Drain,
    /// The process ends and another one starts, with nothing parked or queued.
    Restart,
}

/// `next` is `w` after `step`.
pub open spec fn follows(w: World, step: Step, next: World) -> bool {
    match step {
        Step::Credit(req) => begins_credit(w, req, next),
        Step::Debit(req) => begins_debit(w, req, next),
        Step::Turn { text, now, wait } => turn(w, text, now, wait, next),
        Step::Break { now, wait } => breaks(w, now, wait, next),
        Step::Drain => next == (World { queued: next.queued, ..w }),
        Step::Restart => next == (World {
            parked: Parked { debits: Map::empty(), index: Map::empty(), ..w.parked },
            queued: next.queued,
            flow: closed(),
            action: Action::Finish,
            ..w
        }),
    }
}

/// `worlds` begins fresh, and each world follows from the one before by the step between them.
pub open spec fn runs(worlds: Seq<World>, steps: Seq<Step>) -> bool {
    &&& worlds.len() == steps.len() + 1
    &&& fresh(worlds[0])
    &&& forall|i: int|
        0 <= i < steps.len() ==> follows(#[trigger] worlds[i], steps[i], worlds[i + 1])
}

/// A step that does not cut a flow off between taking an amount and putting it on record.
pub open spec fn cuts_nothing(w: World, step: Step) -> bool {
    (step is Break || step is Restart) ==> !(w.flow.stage is Settling)
}

/// Whatever happens, through failures and restarts, the service keeps order; and as long as no
/// flow is cut off between taking an amount and putting it on record, all money is accounted
/// for.
pub proof fn law_every_run(worlds: Seq<World>, steps: Seq<Step>, n: int, user_id: u128)
    requires
        runs(worlds, steps),
        0 <= n < worlds.len(),
    ensures
        orderly(worlds[n]),
        (forall|i: int| 0 <= i < n ==> cuts_nothing(#[trigger] worlds[i], steps[i]))
            ==> unaccounted(worlds[n], user_id) == 0,
    decreases n,
{
    if n == 0 {
        law_fresh_is_orderly(worlds[0], user_id);
    } else {
        law_every_run(worlds, steps, n - 1, user_id);
        let w = worlds[n - 1];
        let next = worlds[n];
        assert(follows(w, steps[n - 1], worlds[n - 1 + 1]));
        match steps[n - 1] {
            Step::Credit(req) => law_credit_begins_orderly(w, req, next, user_id),
            Step::Debit(req) => law_debit_begins_orderly(w, req, next, user_id),
            Step::Turn { text, now, wait } => {
                law_turn_keeps_order(w, text, now, wait, next);
                law_turn_keeps_account(w, text, now, wait, next, user_id);
            },
            Step::Break { now, wait } => law_failure_keeps_order(w, now, wait, next, user_id),
            Step::Drain => {},
            Step::Restart => {},
        }
    }
}

} // verus!
