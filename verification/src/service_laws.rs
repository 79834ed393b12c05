//! What a flow does with each reply, in terms of what was asked for, what is parked and queued,
//! and what comes back.

use crate::event_store::{queues, EventStore, Queued};
use crate::ids::{is_drawn_id, is_random_id};
use crate::models::{
    CreditRequest, DebitFailureReason, DebitRequest, EventView, PendingDebit,
};
use crate::pending_laws::{law_listed_is_found, law_parking_keeps_sound, parks_listed, sound};
use crate::pending_store::{parked_for, parked_with, Parked, PendingDebitStore};
use crate::service::{
    carried_out, decide, deferred, Action, Flow, FlowView, Outbound, PaymentService, RepoCall,
    Reply, ServiceError, Stage,
};
use crate::time::{law_deadline_is_the_sum, later, Span, Timestamp};
use vstd::prelude::*;

verus! {

/// What a flow, the parked debits and the queue are when a reply comes.
pub struct Before {
    pub flow: FlowView,
    pub parked: Parked,
    pub queued: Queued,
}

/// What they are once the reply is dealt with, and what is needed next.
pub struct After {
    pub flow: FlowView,
    pub action: Action,
    pub parked: Parked,
    pub queued: Queued,
}

/// `after` is what comes of `reply` at `now`, where a debit is to wait for `wait` at most.
pub open spec fn resumes(
    before: Before,
    reply: Reply,
    now: Timestamp,
    wait: Span,
    after: After,
) -> bool {
    let decision = decide(before.flow, reply, now, wait, before.parked);
    &&& after.flow == decision.flow
    &&& after.action == decision.action
    &&& carried_out(
        decision.effect,
        before.parked,
        after.parked,
        before.queued,
        after.queued,
    )
}

/// The flow has ended with `action`, and the stores are as they were.
pub open spec fn over(before: Before, after: After, action: Action) -> bool {
    &&& after.flow.stage is Closed
    &&& after.flow.rest.len() == 0
    &&& after.action == action
    &&& after.parked == before.parked
    &&& after.queued == before.queued
}

/// The flow has turned to the first of `list` at `now`, with the others still to come: it tries
/// a live debit, and reads the balance for an expired one. With none in the list it is done.
pub open spec fn turned_to(list: Seq<PendingDebit>, now: Timestamp, after: After) -> bool {
    if list.len() == 0 {
        after.flow.stage is Closed && after.flow.rest.len() == 0 && after.action is Finish
    } else {
        let debit = list[0];
        &&& after.flow.rest == list.subrange(1, list.len() as int)
        &&& if now.before(debit.expires_at) {
            &&& after.flow.stage == (Stage::Retrying { debit })
            &&& after.action == Action::Ask(
                RepoCall::TryDebit { user_id: debit.user_id, amount: debit.amount },
            )
        } else {
            &&& after.flow.stage == (Stage::Expiring { debit })
            &&& after.action == Action::Ask(RepoCall::Balance { user_id: debit.user_id })
        }
    }
}

/// Once a credit is booked, the flow goes through all debits parked for the user, in order, and
/// so far nothing else has happened.
pub proof fn law_credit_looks_at_all(
    before: Before,
    user_id: u128,
    now: Timestamp,
    wait: Span,
    after: After,
)
    requires
        before.flow.stage == (Stage::Crediting { user_id }),
        resumes(before, Reply::Done, now, wait, after),
    ensures
        turned_to(parked_for(before.parked, user_id), now, after),
        after.parked == before.parked,
        after.queued == before.queued,
{
}

/// A request whose debit is on record is dropped without a trace; any other one is tried, for
/// its amount and on the account of its user.
pub proof fn law_new_request_is_tried(
    before: Before,
    request: DebitRequest,
    processed: bool,
    now: Timestamp,
    wait: Span,
    after: After,
)
    requires
        before.flow.stage == (Stage::Checking { request }),
        resumes(before, Reply::Processed(processed), now, wait, after),
    ensures
        processed ==> over(before, after, Action::Finish),
        !processed ==> {
            &&& after.flow.stage == (Stage::Debiting { request })
            &&& after.flow.rest == before.flow.rest
            &&& after.action matches Action::Ask(RepoCall::TryDebit { user_id, amount })
            &&& user_id == request.user_id
            &&& amount == request.amount
            &&& after.parked == before.parked
            &&& after.queued == before.queued
        },
{
}

/// The amount of the debit `request` is taken: it is put on record as it was asked for, it is
/// parked no more, and its success is what the flow is about to tell.
pub open spec fn is_settling(request: DebitRequest, before: Before, after: After) -> bool {
    &&& after.flow.stage matches Stage::Settling { success }
    &&& success.debit_id == request.debit_id
    &&& success.user_id == request.user_id
    &&& success.amount == request.amount
    &&& after.flow.rest == before.flow.rest
    &&& after.action matches Action::Ask(
        RepoCall::MarkProcessed { debit_id, order_id, user_id, amount },
    )
    &&& debit_id == request.debit_id
    &&& order_id == request.order_id
    &&& user_id == request.user_id
    &&& amount == request.amount
    &&& after.queued == before.queued
    &&& forall|id: u128| #[trigger]
        after.parked.debits.contains_key(id) <==> before.parked.debits.contains_key(id) && id
            != request.debit_id
    &&& forall|id: u128| #[trigger]
        after.parked.debits.contains_key(id) ==> after.parked.debits[id]
            == before.parked.debits[id]
}

/// A new debit that was taken is put on record as it was asked for.
pub proof fn law_taken_request_is_settled(
    before: Before,
    request: DebitRequest,
    now: Timestamp,
    wait: Span,
    after: After,
)
    requires
        before.flow.stage == (Stage::Debiting { request }),
        resumes(before, Reply::Debited(true), now, wait, after),
    ensures
        is_settling(request, before, after),
{
}

/// A parked debit that was taken is put on record as it was asked for. One that was not stays
/// parked as it is, and the flow goes on to the next.
pub proof fn law_retried_debit(
    before: Before,
    debit: PendingDebit,
    taken: bool,
    now: Timestamp,
    wait: Span,
    after: After,
)
    requires
        before.flow.stage == (Stage::Retrying { debit }),
        resumes(before, Reply::Debited(taken), now, wait, after),
    ensures
        taken ==> is_settling(
            DebitRequest {
                debit_id: debit.debit_id,
                order_id: debit.order_id,
                user_id: debit.user_id,
                amount: debit.amount,
            },
            before,
            after,
        ),
        !taken ==> {
            &&& turned_to(before.flow.rest, now, after)
            &&& after.parked == before.parked
            &&& after.queued == before.queued
        },
{
}

/// `debit` is the parked form of `request`, with a deadline of so many nanoseconds since the
/// epoch.
pub open spec fn defers(debit: PendingDebit, request: DebitRequest, deadline: int) -> bool {
    &&& debit.debit_id == request.debit_id
    &&& debit.order_id == request.order_id
    &&& debit.user_id == request.user_id
    &&& debit.amount == request.amount
    &&& debit.expires_at.nanos < 1_000_000_000
    &&& debit.expires_at.secs * 1_000_000_000 + debit.expires_at.nanos == deadline
}

/// A new debit that was not taken is parked as it was asked for, until the wait is over to the
/// nanosecond. Where there is room it is found under its id and among the debits of its user,
/// and every other parked debit is as it was. Only where that deadline lies past the first or
/// the last second is it refused, and nothing changes.
pub proof fn law_uncovered_request_waits(
    before: Before,
    request: DebitRequest,
    now: Timestamp,
    wait: Span,
    after: After,
)
    requires
        before.flow.stage == (Stage::Debiting { request }),
        resumes(before, Reply::Debited(false), now, wait, after),
        sound(before.parked),
        now.on_clock(),
        wait.valid(),
    ensures
        ({
            let deadline = now.secs * 1_000_000_000 + now.nanos + wait.secs * 1_000_000_000
                + wait.nanos;
            let id = request.debit_id;
            let (old, new) = (before.parked, after.parked);
            if -8_334_601_228_800 * 1_000_000_000 <= deadline < 8_210_266_876_800 * 1_000_000_000 {
                &&& after.flow.stage is Closed
                &&& after.flow.rest.len() == 0
                &&& after.action is Finish
                &&& after.queued == before.queued
                &&& new.debits.contains_key(id) ==> defers(new.debits[id], request, deadline)
                &&& forall|other: u128|
                    other != id && #[trigger] new.debits.contains_key(other)
                        ==> old.debits.contains_key(other) && new.debits[other]
                        == old.debits[other]
                &&& old.debits.dom().insert(id).len() <= old.limit ==> {
                    &&& new.debits.contains_key(id)
                    &&& forall|other: u128| #[trigger]
                        old.debits.contains_key(other) ==> new.debits.contains_key(other)
                    &&& old.index.dom().insert(request.user_id).len() <= old.limit
                        && !old.debits.contains_key(id) ==> parked_for(
                        new,
                        request.user_id,
                    ).contains(new.debits[id])
                }
            } else {
                over(before, after, Action::Fail(ServiceError::DeadlineOutOfRange))
            }
        }),
{
    law_deadline_is_the_sum(now, wait);
    if later(now, wait) is Some {
        let pending = deferred(request, later(now, wait)->0);
        let id = request.debit_id;
        let whole = parked_with(before.parked, pending);
        law_parking_keeps_sound(before.parked, pending, after.parked);
        assert(whole.debits.dom() =~= before.parked.debits.dom().insert(id));
        if before.parked.debits.dom().insert(id).len() <= before.parked.limit
            && before.parked.index.dom().insert(request.user_id).len() <= before.parked.limit
            && !before.parked.debits.contains_key(id) {
            assert(whole.index.dom() =~= before.parked.index.dom().insert(request.user_id));
            let list = whole.index[request.user_id];
            assert(list.contains(id)) by {
                if !before.parked.index.contains_key(request.user_id) {
                    assert(list[0] == id);
                } else if !before.parked.index[request.user_id].contains(id) {
                    assert(list[list.len() - 1] == id);
                }
            }
            assert(parks_listed(after.parked, pending));
            law_listed_is_found(after.parked, request.user_id, pending);
        }
    }
}

/// An expired debit is given up with a notice that carries its id, its user, its amount and the
/// balance that was read, and is put on record as given up. It stays parked till then.
pub proof fn law_expired_debit_is_given_up(
    before: Before,
    debit: PendingDebit,
    balance: u64,
    now: Timestamp,
    wait: Span,
    after: After,
)
    requires
        before.flow.stage == (Stage::Expiring { debit }),
        resumes(before, Reply::Balance(balance), now, wait, after),
    ensures
        after.flow.stage matches Stage::Abandoning { failed } && {
            &&& failed.debit_id == debit.debit_id
            &&& failed.user_id == debit.user_id
            &&& failed.amount == debit.amount
            &&& failed.balance == balance
            &&& failed.reason == DebitFailureReason::MaximumWaitExceeded
        },
        after.flow.rest == before.flow.rest,
        after.action matches Action::Ask(RepoCall::MarkAbandoned { debit_id }) && debit_id
            == debit.debit_id,
        after.parked == before.parked,
        after.queued == before.queued,
{
}

/// Once the outcome of a debit is on record, exactly that outcome is told. A debit that was
/// given up is parked no more from then on.
pub proof fn law_recorded_outcome_is_told(before: Before, now: Timestamp, wait: Span, after: After)
    requires
        before.flow.stage is Settling || before.flow.stage is Abandoning,
        resumes(before, Reply::Done, now, wait, after),
    ensures
        after.flow.rest == before.flow.rest,
        after.queued == before.queued,
        before.flow.stage matches Stage::Settling { success } ==> {
            &&& after.flow.stage == (Stage::Announcing { event: Outbound::Success(success) })
            &&& after.action == Action::Encode(Outbound::Success(success))
            &&& after.parked == before.parked
        },
        before.flow.stage matches Stage::Abandoning { failed } ==> {
            &&& after.flow.stage == (Stage::Announcing { event: Outbound::Failed(failed) })
            &&& after.action == Action::Encode(Outbound::Failed(failed))
            &&& forall|id: u128| #[trigger]
                after.parked.debits.contains_key(id) <==> before.parked.debits.contains_key(id)
                    && id != failed.debit_id
            &&& forall|id: u128| #[trigger]
                after.parked.debits.contains_key(id) ==> after.parked.debits[id]
                    == before.parked.debits[id]
        },
{
}

/// An event whose JSON has come is queued, under a drawn id and the topic for its outcome, with
/// that JSON as its payload, and the flow goes on to the next debit. Where there is room the
/// queue gains that event and is otherwise as it was.
pub proof fn law_told_event_is_queued(
    before: Before,
    event: Outbound,
    json: String,
    now: Timestamp,
    wait: Span,
    after: After,
)
    requires
        before.flow.stage == (Stage::Announcing { event }),
        resumes(before, Reply::Payload(json), now, wait, after),
    ensures
        turned_to(before.flow.rest, now, after),
        after.parked == before.parked,
        after.queued.limit == before.queued.limit,
        exists|id: u128| #[trigger]
            is_drawn_id(id) && is_random_id(id) && {
                let told = EventView {
                    id,
                    topic: if event is Success {
                        "payment.debit.success"@
                    } else {
                        "payment.debit.failed"@
                    },
                    payload: json@,
                };
                &&& forall|other: u128|
                    other != id && #[trigger] after.queued.events.contains_key(other)
                        ==> before.queued.events.contains_key(other)
                        && after.queued.events[other] == before.queued.events[other]
                &&& after.queued.events.contains_key(id) ==> after.queued.events[id] == told
                &&& before.queued.events.dom().insert(id).len() <= before.queued.limit
                    ==> after.queued.events == before.queued.events.insert(id, told)
            },
{
    let id = choose|id: u128| #[trigger]
        is_drawn_id(id) && is_random_id(id) && queues(
            before.queued,
            EventView { id, topic: event.topic_name(), payload: json@ },
            after.queued,
        );
    let told = EventView { id, topic: event.topic_name(), payload: json@ };
    assert(before.queued.events.insert(id, told).dom() =~= before.queued.events.dom().insert(id));
    assert(is_drawn_id(id) && is_random_id(id));
}

/// The debit that an event is about, and the topic of its outcome.
pub proof fn law_events_say_what_they_are(event: Outbound)
    ensures
        event matches Outbound::Success(success) ==> event.subject() == success.debit_id
            && event.topic_name() == "payment.debit.success"@,
        event matches Outbound::Failed(failed) ==> event.subject() == failed.debit_id
            && event.topic_name() == "payment.debit.failed"@,
{
}

/// Whether `reply` is one to what a flow at `stage` has asked for.
pub open spec fn answers(stage: Stage, reply: Reply) -> bool {
    match reply {
        Reply::Done => stage is Crediting || stage is Settling || stage is Abandoning,
        Reply::Balance(_) => stage is Expiring,
        Reply::Debited(_) => stage is Debiting || stage is Retrying,
        Reply::Processed(_) => stage is Checking,
        Reply::Payload(_) => stage is Announcing,
        Reply::Failed => false,
    }
}

/// A flow whose action failed, or that gets a reply to something else, ends there and says which
/// of the two it was, and the stores are as they were. So does one that has ended already.
pub proof fn law_other_replies_end_the_flow(
    before: Before,
    reply: Reply,
    now: Timestamp,
    wait: Span,
    after: After,
)
    requires
        resumes(before, reply, now, wait, after),
        !answers(before.flow.stage, reply),
    ensures
        reply is Failed && !(before.flow.stage is Closed) ==> over(
            before,
            after,
            Action::Fail(ServiceError::ActionFailed),
        ),
        !(reply is Failed) || before.flow.stage is Closed ==> over(
            before,
            after,
            Action::Fail(ServiceError::UnexpectedReply),
        ),
{
}

/// A flow fails only where its action failed, where it gets a reply to something else, or where
/// a deadline does not exist.
pub proof fn law_flow_fails_for_a_reason(
    before: Before,
    reply: Reply,
    now: Timestamp,
    wait: Span,
    after: After,
)
    requires
        resumes(before, reply, now, wait, after),
        now.on_clock(),
        wait.valid(),
        after.action is Fail,
    ensures
        !answers(before.flow.stage, reply) || (before.flow.stage is Debiting && reply
            == Reply::Debited(false) && after.action == Action::Fail(
            ServiceError::DeadlineOutOfRange,
        ) && ({
            let deadline = now.secs * 1_000_000_000 + now.nanos + wait.secs * 1_000_000_000
                + wait.nanos;
            deadline < -8_334_601_228_800 * 1_000_000_000 || deadline >= 8_210_266_876_800
                * 1_000_000_000
        })),
{
    law_deadline_is_the_sum(now, wait);
}

/// Only the JSON of an event changes the queue, and only what the flow does with a debit changes
/// which debits are parked: nothing but a request that was not taken adds one, and no flow
/// changes a debit that it is not dealing with.
pub proof fn law_stores_change_for_a_reason(
    before: Before,
    reply: Reply,
    now: Timestamp,
    wait: Span,
    after: After,
    id: u128,
)
    requires
        resumes(before, reply, now, wait, after),
    ensures
        !(before.flow.stage is Announcing && reply is Payload) ==> after.queued == before.queued,
        after.parked != before.parked ==> (reply is Debited && (before.flow.stage is Debiting
            || before.flow.stage is Retrying)) || (reply is Done
            && before.flow.stage is Abandoning),
        after.parked.debits.contains_key(id) && !before.parked.debits.contains_key(id) ==> (
        before.flow.stage matches Stage::Debiting { request } && request.debit_id == id && reply
            == Reply::Debited(false)),
        after.parked.limit == before.parked.limit,
{
    if let Stage::Debiting { request } = before.flow.stage {
        if reply == Reply::Debited(false) && later(now, wait) is Some {
            let whole = parked_with(before.parked, deferred(request, later(now, wait)->0));
            if after.parked.debits.contains_key(id) {
                assert(whole.debits.contains_key(id));
            }
        }
    }
}

/// A credit begins with the booking of its amount for its user, and with nothing else.
pub proof fn law_credit_begins<P: PendingDebitStore, E: EventStore>(
    service: &PaymentService<P, E>,
    req: CreditRequest,
    begun: (Flow, Action),
)
    requires
        call_ensures(PaymentService::<P, E>::credit, (service, req), begun),
    ensures
        begun.0@.stage matches Stage::Crediting { user_id } && user_id == req.user_id,
        begun.0@.rest.len() == 0,
        begun.1 matches Action::Ask(RepoCall::Credit { user_id, amount }) && user_id
            == req.user_id && amount == req.amount,
{
}

/// A debit begins with the look whether its id is on record, and with nothing else.
pub proof fn law_debit_begins<P: PendingDebitStore, E: EventStore>(
    service: &PaymentService<P, E>,
    req: DebitRequest,
    begun: (Flow, Action),
)
    requires
        call_ensures(PaymentService::<P, E>::handle_debit_request, (service, req), begun),
    ensures
        begun.0@.stage matches Stage::Checking { request } && request == req,
        begun.0@.rest.len() == 0,
        begun.1 matches Action::Ask(RepoCall::DebitProcessed { debit_id }) && debit_id
            == req.debit_id,
{
}

} // verus!
