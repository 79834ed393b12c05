//! The flows of the payment service: credits, debits, and the events they give rise to.
//!
//! A flow alternates between decisions, which are made here, and work that has to be waited for:
//! a call of the durable repository, or the encoding of an event. [`PaymentService::credit`] and
//! [`PaymentService::handle_debit_request`] begin a flow. Each answers with an [`Action`]; what
//! comes of the action goes to [`PaymentService::resume`], until the action is `Finish` or
//! `Fail`.

use crate::event_store::{queues, EventStore, Queued};
use crate::ids::{is_drawn_id, is_random_id};
use crate::models::{
    CreditRequest, DebitFailed, DebitFailureReason, DebitRequest, DebitSuccess, EventView,
    PendingDebit,
};
use crate::pending_store::{parked_for, parked_without, parks, Parked, PendingDebitStore};
use crate::time::{add_span, is_clock_reading, later, utc_now, Span, Timestamp};
use std::collections::VecDeque;
use vstd::prelude::*;

verus! {

/// The topic of requests to debit an account.
pub const DEBIT_REQUEST_TOPIC: &'static str = "payment.debit.request";

/// The topic of [`DebitSuccess`].
pub const DEBIT_SUCCESS_TOPIC: &'static str = "payment.debit.success";

/// The topic of [`DebitFailed`].
pub const DEBIT_FAILED_TOPIC: &'static str = "payment.debit.failed";

/// An event for the world outside.
#[derive(Clone, Copy, Debug, PartialEq, Eq, Structural)]
pub enum Outbound {
    Success(DebitSuccess),
    Failed(DebitFailed),
}

impl Outbound {
    /// The topic under which the event is published.
    pub open spec fn topic_name(self) -> Seq<char> {
        match self {
            Outbound::Success(_) => DEBIT_SUCCESS_TOPIC@,
            Outbound::Failed(_) => DEBIT_FAILED_TOPIC@,
        }
    }

    /// The debit that the event is about.
    pub open spec fn subject(self) -> u128 {
        match self {
            Outbound::Success(success) => success.debit_id,
            Outbound::Failed(failed) => failed.debit_id,
        }
    }

    /// The topic under which the event is published.
    pub fn topic(&self) -> (topic: String)
        ensures
            topic@ == self.topic_name(),
    {
        match self {
            Outbound::Success(_) => DEBIT_SUCCESS_TOPIC.to_owned(),
            Outbound::Failed(_) => DEBIT_FAILED_TOPIC.to_owned(),
        }
    }
}

/// A call of the durable repository.
#[derive(Clone, Copy, Debug, PartialEq, Eq, Structural)]
pub enum RepoCall {
    /// Add `amount` to the balance of `user_id`, making the account if there is none, and book
    /// the credit.
    Credit { user_id: u128, amount: u64 },
    /// Read the balance of `user_id`, zero if there is no account.
    Balance { user_id: u128 },
    /// Take `amount` from the balance of `user_id`, if it suffices.
    TryDebit { user_id: u128, amount: u64 },
    /// Look whether `debit_id` is on record, as processed or as given up.
    DebitProcessed { debit_id: u128 },
    /// Put `debit_id` on record as processed, unless it is, with the amount that it took.
    MarkProcessed { debit_id: u128, order_id: u128, user_id: u128, amount: u64 },
    /// Put `debit_id` on record as given up, unless it is.
    MarkAbandoned { debit_id: u128 },
}

/// What a flow needs done before it can go on.
#[derive(Clone, Copy, Debug, PartialEq, Eq, Structural)]
pub enum Action {
    /// Call the repository.
    Ask(RepoCall),
    /// Write the event as JSON.
    Encode(Outbound),
    /// Nothing: the flow is done.
    Finish,
    /// Nothing: the flow has failed.
    Fail(ServiceError),
}

/// What came of an action.
#[derive(Clone, Debug)]
pub enum Reply {
    /// The repository wrote what it was asked to write.
    Done,
    /// The balance that the repository read.
    Balance(u64),
    /// Whether the repository took the amount from the balance.
    Debited(bool),
    /// Whether the debit is on record.
    Processed(bool),
    /// The event as JSON.
    Payload(String),
    /// The action could not be carried out.
    Failed,
}

/// Why a flow failed.
#[derive(Clone, Copy, Debug, PartialEq, Eq, Structural)]
pub enum ServiceError {
    /// An action could not be carried out.
    ActionFailed,
    /// The deadline of a debit to be parked lies past the last instant there is.
    DeadlineOutOfRange,
    /// The reply is none to the action that was asked for.
    UnexpectedReply,
}

/// Where a flow stands.
#[derive(Clone, Copy, Debug, PartialEq, Eq, Structural)]
pub enum Stage {
    /// The credit of `user_id` is being booked.
    Crediting { user_id: u128 },
    /// Whether the debit is on record is being looked up.
    Checking { request: DebitRequest },
    /// The amount of a new debit is being taken.
    Debiting { request: DebitRequest },
    /// The amount of a parked debit is being taken.
    Retrying { debit: PendingDebit },
    /// The balance for the notice about an expired debit is being read.
    Expiring { debit: PendingDebit },
    /// A debit that was taken is being put on record.
    Settling { success: DebitSuccess },
    /// A debit that was given up is being put on record.
    Abandoning { failed: DebitFailed },
    /// An event is being encoded.
    Announcing { event: Outbound },
    /// The flow has ended.
    Closed,
}

/// A flow between two decisions.
#[derive(Debug)]
pub struct Flow {
    stage: Stage,
    /// The parked debits that are still to be looked at.
    rest: VecDeque<PendingDebit>,
}

/// A flow, mathematically.
pub struct FlowView {
    pub stage: Stage,
    pub rest: Seq<PendingDebit>,
}

impl View for Flow {
    type V = FlowView;

    closed spec fn view(&self) -> FlowView {
        FlowView { stage: self.stage, rest: self.rest@ }
    }
}

/// What a decision does to the stores.
pub enum Effect {
    Nothing,
    /// The debit is parked.
    Park(PendingDebit),
    /// The debit is taken out of the parked ones.
    Discard(u128),
    /// An event is queued.
    Queue { topic: Seq<char>, payload: Seq<char> },
}

/// A decision: where the flow goes, what it needs done, and what happens to the stores.
pub struct Decision {
    pub flow: FlowView,
    pub action: Action,
    pub effect: Effect,
}

/// A flow that has ended.
pub open spec fn closed() -> FlowView {
    FlowView { stage: Stage::Closed, rest: Seq::empty() }
}

/// A flow ends with `action`, and nothing happens to the stores.
pub open spec fn ends(action: Action) -> Decision {
    Decision { flow: closed(), action, effect: Effect::Nothing }
}

/// At `now` a flow turns to the next of the parked debits `rest`: an expired one is given up,
/// another one is tried again.
pub open spec fn next_debit(rest: Seq<PendingDebit>, now: Timestamp) -> (FlowView, Action) {
    if rest.len() == 0 {
        (closed(), Action::Finish)
    } else {
        let debit = rest[0];
        if now.before(debit.expires_at) {
            (
                FlowView { stage: Stage::Retrying { debit }, rest: rest.skip(1) },
                Action::Ask(RepoCall::TryDebit { user_id: debit.user_id, amount: debit.amount }),
            )
        } else {
            (
                FlowView { stage: Stage::Expiring { debit }, rest: rest.skip(1) },
                Action::Ask(RepoCall::Balance { user_id: debit.user_id }),
            )
        }
    }
}

/// A debit was taken from the account: it leaves the parked ones and is put on record.
pub open spec fn settle(
    debit_id: u128,
    order_id: u128,
    user_id: u128,
    amount: u64,
    rest: Seq<PendingDebit>,
) -> Decision {
    Decision {
        flow: FlowView {
            stage: Stage::Settling { success: DebitSuccess { debit_id, user_id, amount } },
            rest,
        },
        action: Action::Ask(RepoCall::MarkProcessed { debit_id, order_id, user_id, amount }),
        effect: Effect::Discard(debit_id),
    }
}

/// The notice that `debit` was given up with `balance` on the account.
pub open spec fn given_up(debit: PendingDebit, balance: u64) -> DebitFailed {
    DebitFailed {
        debit_id: debit.debit_id,
        user_id: debit.user_id,
        amount: debit.amount,
        balance,
        reason: DebitFailureReason::MaximumWaitExceeded,
    }
}

/// The parked debit for a request that is to be covered before `expires_at`.
pub open spec fn deferred(request: DebitRequest, expires_at: Timestamp) -> PendingDebit {
    PendingDebit {
        debit_id: request.debit_id,
        order_id: request.order_id,
        user_id: request.user_id,
        amount: request.amount,
        expires_at,
    }
}

/// What is decided when `reply` comes to `flow` at `now`, with `parked` as the parked debits and
/// `wait` as the longest time a debit is to wait.
pub open spec fn decide(
    flow: FlowView,
    reply: Reply,
    now: Timestamp,
    wait: Span,
    parked: Parked,
) -> Decision {
    match (flow.stage, reply) {
        (Stage::Closed, _) => ends(Action::Fail(ServiceError::UnexpectedReply)),
        (_, Reply::Failed) => ends(Action::Fail(ServiceError::ActionFailed)),
        (Stage::Crediting { user_id }, Reply::Done) => {
            let (flow, action) = next_debit(parked_for(parked, user_id), now);
            Decision { flow, action, effect: Effect::Nothing }
        },
        (Stage::Checking { request }, Reply::Processed(processed)) => if processed {
            ends(Action::Finish)
        } else {
            Decision {
                flow: FlowView { stage: Stage::Debiting { request }, rest: flow.rest },
                action: Action::Ask(
                    RepoCall::TryDebit { user_id: request.user_id, amount: request.amount },
                ),
                effect: Effect::Nothing,
            }
        },
        (Stage::Debiting { request }, Reply::Debited(taken)) => if taken {
            settle(
                request.debit_id,
                request.order_id,
                request.user_id,
                request.amount,
                flow.rest,
            )
        } else {
            match later(now, wait) {
                Some(expires_at) => Decision {
                    effect: Effect::Park(deferred(request, expires_at)),
                    ..ends(Action::Finish)
                },
                None => ends(Action::Fail(ServiceError::DeadlineOutOfRange)),
            }
        },
        (Stage::Retrying { debit }, Reply::Debited(taken)) => if taken {
            settle(debit.debit_id, debit.order_id, debit.user_id, debit.amount, flow.rest)
        } else {
            let (flow, action) = next_debit(flow.rest, now);
            Decision { flow, action, effect: Effect::Nothing }
        },
        (Stage::Expiring { debit }, Reply::Balance(balance)) => Decision {
            flow: FlowView {
                stage: Stage::Abandoning { failed: given_up(debit, balance) },
                rest: flow.rest,
            },
            action: Action::Ask(RepoCall::MarkAbandoned { debit_id: debit.debit_id }),
            effect: Effect::Nothing,
        },
        (Stage::Settling { success }, Reply::Done) => announce(
            Outbound::Success(success),
            flow.rest,
        ),
        (Stage::Abandoning { failed }, Reply::Done) => Decision {
            effect: Effect::Discard(failed.debit_id),
            ..announce(Outbound::Failed(failed), flow.rest)
        },
        (Stage::Announcing { event }, Reply::Payload(payload)) => {
            let (flow, action) = next_debit(flow.rest, now);
            Decision {
                flow,
                action,
                effect: Effect::Queue { topic: event.topic_name(), payload: payload@ },
            }
        },
        _ => ends(Action::Fail(ServiceError::UnexpectedReply)),
    }
}

/// An event is to be encoded.
pub open spec fn announce(event: Outbound, rest: Seq<PendingDebit>) -> Decision {
    Decision {
        flow: FlowView { stage: Stage::Announcing { event }, rest },
        action: Action::Encode(event),
        effect: Effect::Nothing,
    }
}

/// `effect` takes the stores from what they held to what they hold.
pub open spec fn carried_out(
    effect: Effect,
    parked: Parked,
    parked_after: Parked,
    queued: Queued,
    queued_after: Queued,
) -> bool {
    match effect {
        Effect::Nothing => parked_after == parked && queued_after == queued,
        Effect::Park(debit) => parks(parked, debit, parked_after) && queued_after == queued,
        Effect::Discard(debit_id) => parked_after == parked_without(parked, debit_id)
            && queued_after == queued,
        Effect::Queue { topic, payload } => parked_after == parked && exists|id: u128| #[trigger]
            is_drawn_id(id) && is_random_id(id) && queues(
            queued,
            EventView { id, topic, payload },
            queued_after,
        ),
    }
}

/// The service: it holds the parked debits and the queued events, and drives the flows.
pub struct PaymentService<P, E> {
    pending: P,
    events: E,
    /// The longest time to wait for funds before a parked debit is given up.
    maximum_wait: Span,
}

impl<P: PendingDebitStore, E: EventStore> PaymentService<P, E> {
    /// Both stores are valid, and the longest wait is one.
    pub closed spec fn wf(&self) -> bool {
        self.pending.wf() && self.events.wf() && self.maximum_wait.valid()
    }

    /// The parked debits.
    pub closed spec fn parked(&self) -> Parked {
        self.pending.parked()
    }

    /// The queued events.
    pub closed spec fn queued(&self) -> Queued {
        self.events.queued()
    }

    /// The longest time to wait for funds.
    pub closed spec fn wait(&self) -> Span {
        self.maximum_wait
    }

    /// A service on the two stores.
    pub fn new(pending: P, events: E, maximum_wait: Span) -> (service: Self)
        requires
            pending.wf(),
            events.wf(),
            maximum_wait.valid(),
        ensures
            service.wf(),
            service.parked() == pending.parked(),
            service.queued() == events.queued(),
            service.wait() == maximum_wait,
    {
        PaymentService { pending, events, maximum_wait }
    }

    /// Begins to credit an account. Once the credit is booked, the debits parked for the user
    /// are looked at one by one:
    ///
    /// 1. An expired one is given up: the balance is read, the debit is put on record as given
    ///    up and discarded, and `payment.debit.failed` is queued.
    /// 2. A live one that the balance covers is taken: it is discarded and put on record, and
    ///    `payment.debit.success` is queued.
    /// 3. A live one that the balance does not cover stays parked.
    pub fn credit(&self, req: CreditRequest) -> (r: (Flow, Action))
        ensures
            r.0@ == (FlowView {
                stage: Stage::Crediting { user_id: req.user_id },
                rest: Seq::empty(),
            }),
            r.1 == Action::Ask(RepoCall::Credit { user_id: req.user_id, amount: req.amount }),
    {
        let flow = Flow {
            stage: Stage::Crediting { user_id: req.user_id },
            rest: VecDeque::new(),
        };
        (flow, Action::Ask(RepoCall::Credit { user_id: req.user_id, amount: req.amount }))
    }

    /// Begins to debit an account. A request whose id is on record is ignored, which makes
    /// redelivered messages harmless. A debit that the balance does not cover is parked.
    pub fn handle_debit_request(&self, req: DebitRequest) -> (r: (Flow, Action))
        ensures
            r.0@ == (FlowView { stage: Stage::Checking { request: req }, rest: Seq::empty() }),
            r.1 == Action::Ask(RepoCall::DebitProcessed { debit_id: req.debit_id }),
    {
        let flow = Flow { stage: Stage::Checking { request: req }, rest: VecDeque::new() };
        (flow, Action::Ask(RepoCall::DebitProcessed { debit_id: req.debit_id }))
    }

    /// Takes a flow on when `reply` comes at `now`.
    pub fn resume_at(&mut self, flow: Flow, reply: Reply, now: Timestamp) -> (r: (Flow, Action))
        requires
            old(self).wf(),
            now.on_clock(),
        ensures
            final(self).wf(),
            final(self).wait() == old(self).wait(),
            ({
                let decision = decide(
                    flow@,
                    reply,
                    now,
                    old(self).wait(),
                    old(self).parked(),
                );
                &&& r.0@ == decision.flow
                &&& r.1 == decision.action
                &&& carried_out(
                    decision.effect,
                    old(self).parked(),
                    final(self).parked(),
                    old(self).queued(),
                    final(self).queued(),
                )
            }),
    {
        let Flow { stage, rest } = flow;
        match (stage, reply) {
            (Stage::Closed, _) => end(Action::Fail(ServiceError::UnexpectedReply)),
            (_, Reply::Failed) => end(Action::Fail(ServiceError::ActionFailed)),
            (Stage::Crediting { user_id }, Reply::Done) => {
                let debits = self.pending.pending_for_user(user_id);
                turn_to_next(in_order(&debits), now)
            },
            (Stage::Checking { request }, Reply::Processed(processed)) => {
                if processed {
                    return end(Action::Finish);
                }
                let call = RepoCall::TryDebit { user_id: request.user_id, amount: request.amount };
                (Flow { stage: Stage::Debiting { request }, rest }, Action::Ask(call))
            },
            (Stage::Debiting { request }, Reply::Debited(taken)) => {
                if taken {
                    return self.handle_taken_debit(
                        request.debit_id,
                        request.order_id,
                        request.user_id,
                        request.amount,
                        rest,
                    );
                }
                self.park(request, now)
            },
            (Stage::Retrying { debit }, Reply::Debited(taken)) => {
                if taken {
                    return self.handle_taken_debit(
                        debit.debit_id,
                        debit.order_id,
                        debit.user_id,
                        debit.amount,
                        rest,
                    );
                }
                turn_to_next(rest, now)
            },
            (Stage::Expiring { debit }, Reply::Balance(balance)) => {
                give_up(debit, balance, rest)
            },
            (Stage::Settling { success }, Reply::Done) => {
                let event = Outbound::Success(success);
                (Flow { stage: Stage::Announcing { event }, rest }, Action::Encode(event))
            },
            (Stage::Abandoning { failed }, Reply::Done) => {
                self.handle_expired_debit(failed, rest)
            },
            (Stage::Announcing { event }, Reply::Payload(payload)) => {
                self.events.enqueue(event.topic(), payload);
                turn_to_next(rest, now)
            },
            _ => end(Action::Fail(ServiceError::UnexpectedReply)),
        }
    }

    /// Takes a flow on when `reply` comes now.
    pub fn resume(&mut self, flow: Flow, reply: Reply) -> (r: (Flow, Action))
        requires
            old(self).wf(),
        ensures
            final(self).wf(),
            final(self).wait() == old(self).wait(),
            exists|now: Timestamp| #[trigger]
                is_clock_reading(now) && now.on_clock() && {
                    let decision = decide(
                        flow@,
                        reply,
                        now,
                        old(self).wait(),
                        old(self).parked(),
                    );
                    &&& r.0@ == decision.flow
                    &&& r.1 == decision.action
                    &&& carried_out(
                        decision.effect,
                        old(self).parked(),
                        final(self).parked(),
                        old(self).queued(),
                        final(self).queued(),
                    )
                },
    {
        let now = utc_now();
        self.resume_at(flow, reply, now)
    }

    /// A debit was taken from the account.
    fn handle_taken_debit(
        &mut self,
        debit_id: u128,
        order_id: u128,
        user_id: u128,
        amount: u64,
        rest: VecDeque<PendingDebit>,
    ) -> (r: (Flow, Action))
        requires
            old(self).wf(),
        ensures
            final(self).wf(),
            final(self).wait() == old(self).wait(),
            final(self).queued() == old(self).queued(),
            final(self).parked() == parked_without(old(self).parked(), debit_id),
            r.0@ == settle(debit_id, order_id, user_id, amount, rest@).flow,
            r.1 == settle(debit_id, order_id, user_id, amount, rest@).action,
    {
        self.pending.remove(debit_id);
        let success = DebitSuccess { debit_id, user_id, amount };
        (
            Flow { stage: Stage::Settling { success }, rest },
            Action::Ask(RepoCall::MarkProcessed { debit_id, order_id, user_id, amount }),
        )
    }

    /// A parked debit that has expired is on record as given up.
    fn handle_expired_debit(&mut self, failed: DebitFailed, rest: VecDeque<PendingDebit>) -> (r: (
        Flow,
        Action,
    ))
        requires
            old(self).wf(),
        ensures
            final(self).wf(),
            final(self).wait() == old(self).wait(),
            final(self).queued() == old(self).queued(),
            final(self).parked() == parked_without(old(self).parked(), failed.debit_id),
            r.0@ == announce(Outbound::Failed(failed), rest@).flow,
            r.1 == announce(Outbound::Failed(failed), rest@).action,
    {
        self.pending.remove(failed.debit_id);
        let event = Outbound::Failed(failed);
        (Flow { stage: Stage::Announcing { event }, rest }, Action::Encode(event))
    }

    /// The balance does not cover a new debit: it is parked.
    fn park(&mut self, request: DebitRequest, now: Timestamp) -> (r: (Flow, Action))
        requires
            old(self).wf(),
            now.on_clock(),
        ensures
            final(self).wf(),
            final(self).wait() == old(self).wait(),
            final(self).queued() == old(self).queued(),
            r.0@ == closed(),
            match later(now, old(self).wait()) {
                Some(expires_at) => r.1 == Action::Finish && parks(
                    old(self).parked(),
                    deferred(request, expires_at),
                    final(self).parked(),
                ),
                None => r.1 == Action::Fail(ServiceError::DeadlineOutOfRange)
                    && final(self).parked() == old(self).parked(),
            },
    {
        match add_span(now, self.maximum_wait) {
            Some(expires_at) => {
                self.pending.add(
                    PendingDebit {
                        debit_id: request.debit_id,
                        order_id: request.order_id,
                        user_id: request.user_id,
                        amount: request.amount,
                        expires_at,
                    },
                );
                end(Action::Finish)
            },
            None => end(Action::Fail(ServiceError::DeadlineOutOfRange)),
        }
    }

    /// The queue of outbound events, for the worker that publishes them.
    pub fn events(&mut self) -> (events: &mut E)
        requires
            old(self).wf(),
        ensures
            events.wf(),
            events.queued() == old(self).queued(),
            final(events).wf() ==> final(self).wf(),
            final(self).queued() == final(events).queued(),
            final(self).parked() == old(self).parked(),
            final(self).wait() == old(self).wait(),
    {
        &mut self.events
    }
}

/// A flow that has ended with `action`.
fn end(action: Action) -> (r: (Flow, Action))
    ensures
        r.0@ == closed(),
        r.1 == action,
{
    (Flow { stage: Stage::Closed, rest: VecDeque::new() }, action)
}

/// A parked debit has expired, with `balance` on the account. It stays parked until it is on
/// record as given up.
fn give_up(debit: PendingDebit, balance: u64, rest: VecDeque<PendingDebit>) -> (r: (Flow, Action))
    ensures
        r.0@ == (FlowView {
            stage: Stage::Abandoning { failed: given_up(debit, balance) },
            rest: rest@,
        }),
        r.1 == Action::Ask(RepoCall::MarkAbandoned { debit_id: debit.debit_id }),
{
    let failed = DebitFailed {
        debit_id: debit.debit_id,
        user_id: debit.user_id,
        amount: debit.amount,
        balance,
        reason: DebitFailureReason::MaximumWaitExceeded,
    };
    let call = RepoCall::MarkAbandoned { debit_id: debit.debit_id };
    (Flow { stage: Stage::Abandoning { failed }, rest }, Action::Ask(call))
}

/// `debits`, to be taken from the front.
fn in_order(debits: &Vec<PendingDebit>) -> (rest: VecDeque<PendingDebit>)
    ensures
        rest@ == debits@,
{
    let mut rest: VecDeque<PendingDebit> = VecDeque::new();
    for i in 0..debits.len()
        invariant
            rest@ == debits@.take(i as int),
    {
        rest.push_back(debits[i]);
        assert(debits@.take(i + 1) =~= debits@.take(i as int).push(debits@[i as int]));
    }
    assert(debits@.take(debits@.len() as int) =~= debits@);
    rest
}

/// The flow turns to the next of the parked debits `rest`.
fn turn_to_next(rest: VecDeque<PendingDebit>, now: Timestamp) -> (r: (Flow, Action))
    ensures
        (r.0@, r.1) == next_debit(rest@, now),
{
    let mut rest = rest;
    match rest.pop_front() {
        None => end(Action::Finish),
        Some(debit) => {
            if now.is_before(&debit.expires_at) {
                let call = RepoCall::TryDebit { user_id: debit.user_id, amount: debit.amount };
                (Flow { stage: Stage::Retrying { debit }, rest }, Action::Ask(call))
            } else {
                let call = RepoCall::Balance { user_id: debit.user_id };
                (Flow { stage: Stage::Expiring { debit }, rest }, Action::Ask(call))
            }
        },
    }
}

} // verus!
