//! What holds over whole runs of the service: that every record is announced, that a debit is
//! charged once and as it was asked for, and that no debit waits that could be paid.

use crate::event_store::{lists, queues};
use crate::ids::{is_drawn_id, is_random_id};
use crate::ledger::{
    balance_of, follows, law_every_run, on_record, orderly, recorded, row_of, running, runs,
    tells, Processed, Step, World,
};
use crate::models::{DebitRequest, DebitSuccess, EventView, PendingDebit};
use crate::pending_laws::{
    law_discarding_lists_no_other, law_listed_is_found, law_lookup_is_right,
    law_parking_lists_no_other, parks_listed,
};
use crate::pending_store::{parked_for, parked_with};
use crate::repository::debited;
use crate::service::{deferred, Action, Outbound, RepoCall, Stage};
use crate::time::{later, law_deadline_is_the_sum, law_order_counts_nanoseconds, Timestamp};
use vstd::prelude::*;

verus! {

/// The first `n` of `steps` cut no flow off: no action fails, and the process does not end.
pub open spec fn uncut(steps: Seq<Step>, n: int) -> bool {
    forall|i: int| 0 <= i < n ==> !(#[trigger] steps[i] is Break) && !(steps[i] is Restart)
}

/// `event` says that the debit of `record` was taken.
pub open spec fn told_by(record: Processed, event: Outbound) -> bool {
    event matches Outbound::Success(success) && tells(record, success)
}

/// `event` says that the debit `debit_id` was given up.
pub open spec fn notice_of(debit_id: u128, event: Outbound) -> bool {
    event matches Outbound::Failed(failed) && failed.debit_id == debit_id
}

/// The success of the debit of `record` was sent, or is about to be.
pub open spec fn success_told(w: World, record: Processed) -> bool {
    ||| exists|i: int| 0 <= i < w.sent.len() && told_by(record, #[trigger] w.sent[i])
    ||| w.flow.stage matches Stage::Announcing { event } && told_by(record, event)
}

/// The notice about the debit `debit_id` was sent, or is about to be.
pub open spec fn notice_told(w: World, debit_id: u128) -> bool {
    ||| exists|i: int| 0 <= i < w.sent.len() && notice_of(debit_id, #[trigger] w.sent[i])
    ||| w.flow.stage matches Stage::Announcing { event } && notice_of(debit_id, event)
}

/// Every debit on record has its event.
pub open spec fn all_told(w: World) -> bool {
    &&& forall|k: int|
        0 <= k < w.books.processed.len() ==> success_told(w, #[trigger] w.books.processed[k])
    &&& forall|id: u128| #[trigger] w.books.abandoned.contains(id) ==> notice_told(w, id)
}

/// What was told stays told, where an event that was about to be sent is sent or still about to
/// be.
proof fn lemma_stays_told(w: World, next: World)
    requires
        (next.flow == w.flow && next.sent == w.sent) || match w.flow.stage {
            Stage::Announcing { event } => next.sent == w.sent.push(event),
            _ => next.sent == w.sent,
        },
    ensures
        forall|record: Processed| #[trigger]
            success_told(w, record) ==> success_told(next, record),
        forall|id: u128| #[trigger] notice_told(w, id) ==> notice_told(next, id),
{
    let n = w.sent.len() as int;
    assert forall|record: Processed| #[trigger] success_told(w, record) implies success_told(
        next,
        record,
    ) by {
        if exists|i: int| 0 <= i < n && told_by(record, #[trigger] w.sent[i]) {
            let i = choose|i: int| 0 <= i < n && told_by(record, #[trigger] w.sent[i]);
            assert(told_by(record, next.sent[i]));
        } else if next.flow != w.flow {
            assert(told_by(record, next.sent[n]));
        }
    }
    assert forall|id: u128| #[trigger] notice_told(w, id) implies notice_told(next, id) by {
        if exists|i: int| 0 <= i < n && notice_of(id, #[trigger] w.sent[i]) {
            let i = choose|i: int| 0 <= i < n && notice_of(id, #[trigger] w.sent[i]);
            assert(notice_of(id, next.sent[i]));
        } else if next.flow != w.flow {
            assert(notice_of(id, next.sent[n]));
        }
    }
}

/// A step that cuts nothing off leaves every debit on record with its event.
proof fn lemma_step_tells(w: World, step: Step, next: World)
    requires
        orderly(w),
        all_told(w),
        follows(w, step, next),
        !(step is Break) && !(step is Restart),
    ensures
        all_told(next),
{
    lemma_stays_told(w, next);
    assert forall|k: int| 0 <= k < next.books.processed.len() implies success_told(
        next,
        #[trigger] next.books.processed[k],
    ) by {
        if k < w.books.processed.len() {
            assert(next.books.processed[k] == w.books.processed[k]);
            assert(success_told(w, w.books.processed[k]));
        } else {
            assert(w.flow.stage is Settling);
        }
    }
    assert forall|id: u128| #[trigger] next.books.abandoned.contains(id) implies notice_told(
        next,
        id,
    ) by {
        if w.books.abandoned.contains(id) {
            assert(notice_told(w, id));
        } else {
            assert(w.flow.stage is Abandoning);
        }
    }
}

/// In a run in which no flow is cut off, every processed debit on record has its success event,
/// and every one that was given up its notice: sent, or about to be.
pub proof fn law_every_record_is_told(worlds: Seq<World>, steps: Seq<Step>, n: int)
    requires
        runs(worlds, steps),
        0 <= n < worlds.len(),
        uncut(steps, n),
    ensures
        all_told(worlds[n]),
    decreases n,
{
    if n > 0 {
        law_every_record_is_told(worlds, steps, n - 1);
        law_every_run(worlds, steps, n - 1, 0);
        assert(follows(worlds[n - 1], steps[n - 1], worlds[n - 1 + 1]));
        assert(!(steps[n - 1] is Break) && !(steps[n - 1] is Restart));
        lemma_step_tells(worlds[n - 1], steps[n - 1], worlds[n]);
    }
}

/// What a step takes from an account, and for which debit.
pub open spec fn takes(w: World, step: Step) -> Option<DebitSuccess> {
    match (step, w.flow.stage) {
        (Step::Turn { .. }, Stage::Debiting { request }) => if debited(
            row_of(w.books, request.user_id),
            request.amount,
        ) is Some {
            Some(
                DebitSuccess {
                    debit_id: request.debit_id,
                    user_id: request.user_id,
                    amount: request.amount,
                },
            )
        } else {
            None
        },
        (Step::Turn { .. }, Stage::Retrying { debit }) => if debited(
            row_of(w.books, debit.user_id),
            debit.amount,
        ) is Some {
            Some(
                DebitSuccess {
                    debit_id: debit.debit_id,
                    user_id: debit.user_id,
                    amount: debit.amount,
                },
            )
        } else {
            None
        },
        _ => None,
    }
}

/// No other step lowers a balance: one that takes an amount lowers the balance of its user by
/// it, and every other balance, and every balance at another step, stays or grows.
pub proof fn law_only_taking_lowers(w: World, step: Step, next: World, user_id: u128)
    requires
        orderly(w),
        follows(w, step, next),
    ensures
        match takes(w, step) {
            Some(taken) => balance_of(next.books, user_id) == balance_of(w.books, user_id) - (
            if taken.user_id == user_id {
                taken.amount as int
            } else {
                0
            }),
            None => balance_of(next.books, user_id) >= balance_of(w.books, user_id),
        },
{
}

/// The debit of `taken` is on record with what it took, or about to be put there.
pub open spec fn charged(w: World, taken: DebitSuccess) -> bool {
    ||| exists|k: int|
        0 <= k < w.books.processed.len() && tells(#[trigger] w.books.processed[k], taken)
    ||| w.flow.stage == (Stage::Settling { success: taken })
}

/// A debit is charged exactly where it was or a step just took it.
proof fn lemma_step_charges(w: World, step: Step, next: World, taken: DebitSuccess)
    requires
        orderly(w),
        follows(w, step, next),
        !(step is Break) && !(step is Restart),
    ensures
        charged(next, taken) <==> charged(w, taken) || takes(w, step) == Some(taken),
        takes(w, step) matches Some(now) ==> charged(w, taken) ==> taken.debit_id != now.debit_id,
{
    let n = w.books.processed.len() as int;
    if exists|k: int| 0 <= k < n && tells(#[trigger] w.books.processed[k], taken) {
        let k = choose|k: int| 0 <= k < n && tells(#[trigger] w.books.processed[k], taken);
        assert(tells(next.books.processed[k], taken));
        assert(w.books.processed[k].debit_id == taken.debit_id);
        assert(on_record(w.books, taken.debit_id));
    }
    if w.flow.stage == (Stage::Settling { success: taken }) && step is Turn {
        assert(tells(next.books.processed[n], taken));
    }
    if exists|k: int|
        0 <= k < next.books.processed.len() && tells(#[trigger] next.books.processed[k], taken) {
        let k = choose|k: int|
            0 <= k < next.books.processed.len() && tells(
                #[trigger] next.books.processed[k],
                taken,
            );
        if k < n {
            assert(next.books.processed[k] == w.books.processed[k]);
            assert(tells(w.books.processed[k], taken));
        } else {
            assert(w.flow.stage is Settling);
        }
    }
}

/// In a run in which no flow is cut off, a debit is charged exactly where a step took it.
proof fn lemma_charged_is_taken(worlds: Seq<World>, steps: Seq<Step>, n: int, taken: DebitSuccess)
    requires
        runs(worlds, steps),
        0 <= n < worlds.len(),
        uncut(steps, n),
    ensures
        charged(worlds[n], taken) <==> exists|i: int|
            0 <= i < n && takes(#[trigger] worlds[i], steps[i]) == Some(taken),
    decreases n,
{
    if n > 0 {
        lemma_charged_is_taken(worlds, steps, n - 1, taken);
        law_every_run(worlds, steps, n - 1, 0);
        assert(follows(worlds[n - 1], steps[n - 1], worlds[n - 1 + 1]));
        assert(!(steps[n - 1] is Break) && !(steps[n - 1] is Restart));
        lemma_step_charges(worlds[n - 1], steps[n - 1], worlds[n], taken);
        if charged(worlds[n - 1], taken) {
            let i = choose|i: int|
                0 <= i < n - 1 && takes(#[trigger] worlds[i], steps[i]) == Some(taken);
            assert(0 <= i < n && takes(worlds[i], steps[i]) == Some(taken));
        }
    }
}

/// In a run in which no flow is cut off, no two steps take an amount for the same debit.
pub proof fn law_charged_once(worlds: Seq<World>, steps: Seq<Step>, i: int, j: int)
    requires
        runs(worlds, steps),
        0 <= i < steps.len(),
        0 <= j < steps.len(),
        uncut(steps, i + 1),
        uncut(steps, j + 1),
        takes(worlds[i], steps[i]) is Some,
        takes(worlds[j], steps[j]) is Some,
        takes(worlds[i], steps[i])->Some_0.debit_id == takes(worlds[j], steps[j])->Some_0.debit_id,
    ensures
        i == j,
{
    if i < j {
        lemma_not_again(worlds, steps, i, j);
    } else if j < i {
        lemma_not_again(worlds, steps, j, i);
    }
}

/// What a step took for a debit, no later step takes again.
proof fn lemma_not_again(worlds: Seq<World>, steps: Seq<Step>, i: int, j: int)
    requires
        runs(worlds, steps),
        0 <= i < j < steps.len(),
        uncut(steps, j + 1),
        takes(worlds[i], steps[i]) is Some,
        takes(worlds[j], steps[j]) is Some,
    ensures
        takes(worlds[i], steps[i])->Some_0.debit_id != takes(worlds[j], steps[j])->Some_0.debit_id,
{
    let taken = takes(worlds[i], steps[i])->Some_0;
    assert(uncut(steps, j));
    lemma_charged_is_taken(worlds, steps, j, taken);
    law_every_run(worlds, steps, j, 0);
    assert(follows(worlds[j], steps[j], worlds[j + 1]));
    assert(!(steps[j] is Break) && !(steps[j] is Restart));
    lemma_step_charges(worlds[j], steps[j], worlds[j + 1], taken);
}

/// In a run in which no flow is cut off, and between flows, a success event was sent exactly
/// where its amount was taken from its user's account for its debit.
pub proof fn law_success_means_taken(
    worlds: Seq<World>,
    steps: Seq<Step>,
    n: int,
    taken: DebitSuccess,
)
    requires
        runs(worlds, steps),
        0 <= n < worlds.len(),
        uncut(steps, n),
        !running(worlds[n]),
    ensures
        worlds[n].sent.contains(Outbound::Success(taken)) <==> exists|i: int|
            0 <= i < n && takes(#[trigger] worlds[i], steps[i]) == Some(taken),
{
    let w = worlds[n];
    law_every_run(worlds, steps, n, 0);
    law_every_record_is_told(worlds, steps, n);
    lemma_charged_is_taken(worlds, steps, n, taken);
    if w.sent.contains(Outbound::Success(taken)) {
        let i = choose|i: int| 0 <= i < w.sent.len() && w.sent[i] == Outbound::Success(taken);
        assert(recorded(w.books, w.sent[i]));
    }
    if charged(w, taken) {
        let k = choose|k: int|
            0 <= k < w.books.processed.len() && tells(#[trigger] w.books.processed[k], taken);
        let record = w.books.processed[k];
        assert(success_told(w, record));
        let i = choose|i: int| 0 <= i < w.sent.len() && told_by(record, #[trigger] w.sent[i]);
        assert(w.sent[i] == Outbound::Success(taken));
    }
}

/// One of the first `n` steps asked for `req`.
pub open spec fn asked(steps: Seq<Step>, n: int, req: DebitRequest) -> bool {
    exists|i: int| 0 <= i < n && #[trigger] steps[i] == Step::Debit(req)
}

/// The request that `debit` was parked for.
pub open spec fn request_of(debit: PendingDebit) -> DebitRequest {
    DebitRequest {
        debit_id: debit.debit_id,
        order_id: debit.order_id,
        user_id: debit.user_id,
        amount: debit.amount,
    }
}

/// Every debit that is parked or being dealt with was asked for.
pub open spec fn all_asked(w: World, steps: Seq<Step>, n: int) -> bool {
    &&& forall|id: u128| #[trigger]
        w.parked.debits.contains_key(id) ==> asked(steps, n, request_of(w.parked.debits[id]))
    &&& forall|i: int|
        0 <= i < w.flow.rest.len() ==> asked(steps, n, request_of(#[trigger] w.flow.rest[i]))
    &&& match w.flow.stage {
        Stage::Checking { request } => asked(steps, n, request),
        Stage::Debiting { request } => asked(steps, n, request),
        Stage::Retrying { debit } => asked(steps, n, request_of(debit)),
        Stage::Expiring { debit } => asked(steps, n, request_of(debit)),
        _ => true,
    }
}

/// Turning to the next of `rest` deals with what was asked for.
proof fn lemma_next_was_asked(w: World, rest: Seq<PendingDebit>, steps: Seq<Step>, n: int)
    requires
        forall|id: u128| #[trigger]
            w.parked.debits.contains_key(id) ==> asked(steps, n, request_of(w.parked.debits[id])),
        forall|i: int| 0 <= i < rest.len() ==> asked(steps, n, request_of(#[trigger] rest[i])),
        w.flow.stage is Closed ==> w.flow.rest.len() == 0,
        w.flow.stage is Closed || (rest.len() > 0 && w.flow.rest == rest.skip(1) && (w.flow.stage
            == (Stage::Retrying { debit: rest[0] }) || w.flow.stage == (Stage::Expiring {
            debit: rest[0],
        }))),
    ensures
        all_asked(w, steps, n),
{
    if rest.len() > 0 {
        assert(asked(steps, n, request_of(rest[0])));
        let tail = rest.skip(1);
        assert forall|i: int| 0 <= i < tail.len() implies asked(
            steps,
            n,
            request_of(#[trigger] tail[i]),
        ) by {
            assert(tail[i] == rest[i + 1]);
        }
    }
}

/// In any run, every debit that is parked or being dealt with was asked for.
proof fn lemma_was_asked(worlds: Seq<World>, steps: Seq<Step>, n: int)
    requires
        runs(worlds, steps),
        0 <= n < worlds.len(),
    ensures
        all_asked(worlds[n], steps, n),
    decreases n,
{
    if n > 0 {
        let (w, next) = (worlds[n - 1], worlds[n]);
        lemma_was_asked(worlds, steps, n - 1);
        law_every_run(worlds, steps, n - 1, 0);
        assert(follows(worlds[n - 1], steps[n - 1], worlds[n - 1 + 1]));
        assert forall|req: DebitRequest| #[trigger] asked(steps, n - 1, req) implies asked(
            steps,
            n,
            req,
        ) by {
            let i = choose|i: int| 0 <= i < n - 1 && #[trigger] steps[i] == Step::Debit(req);
            assert(0 <= i < n && steps[i] == Step::Debit(req));
        }
        assert(all_asked(w, steps, n));
        match steps[n - 1] {
            Step::Debit(req) => {
                assert(asked(steps, n, req));
            },
            Step::Turn { text, now, wait } => {
                match w.flow.stage {
                    Stage::Crediting { user_id } => {
                        let rest = parked_for(w.parked, user_id);
                        law_lookup_is_right(w.parked, user_id);
                        lemma_next_was_asked(next, rest, steps, n);
                    },
                    Stage::Debiting { request } => {
                        if takes(w, steps[n - 1]) is None && later(now, wait) is Some {
                            let pending = deferred(request, later(now, wait)->0);
                            assert(request_of(pending) == request);
                            let whole = parked_with(w.parked, pending);
                            assert forall|id: u128| #[trigger]
                                next.parked.debits.contains_key(id) implies asked(
                                steps,
                                n,
                                request_of(next.parked.debits[id]),
                            ) by {
                                assert(whole.debits.contains_key(id) && next.parked.debits[id]
                                    == whole.debits[id]);
                            }
                        }
                    },
                    Stage::Retrying { debit } => {
                        if takes(w, steps[n - 1]) is None {
                            lemma_next_was_asked(next, w.flow.rest, steps, n);
                        }
                    },
                    Stage::Announcing { event } => {
                        lemma_next_was_asked(next, w.flow.rest, steps, n);
                    },
                    _ => {},
                }
            },
            _ => {},
        }
    }
}

/// What a step takes for a debit is what a request for that debit asked for, and from the
/// account that it named.
pub proof fn law_taken_as_asked(worlds: Seq<World>, steps: Seq<Step>, n: int)
    requires
        runs(worlds, steps),
        0 <= n < steps.len(),
    ensures
        takes(worlds[n], steps[n]) matches Some(taken) ==> exists|req: DebitRequest| #[trigger]
            asked(steps, n, req) && req.debit_id == taken.debit_id && req.user_id == taken.user_id
                && req.amount == taken.amount,
{
    lemma_was_asked(worlds, steps, n);
    match worlds[n].flow.stage {
        Stage::Debiting { request } => {
            assert(asked(steps, n, request));
        },
        Stage::Retrying { debit } => {
            assert(asked(steps, n, request_of(debit)));
        },
        _ => {},
    }
}

/// All that the first `n` steps took for the debit `debit_id`.
pub open spec fn taken_for(worlds: Seq<World>, steps: Seq<Step>, n: int, debit_id: u128) -> int
    decreases n,
{
    if n <= 0 {
        0
    } else {
        taken_for(worlds, steps, n - 1, debit_id) + match takes(worlds[n - 1], steps[n - 1]) {
            Some(taken) => if taken.debit_id == debit_id {
                taken.amount as int
            } else {
                0
            },
            None => 0,
        }
    }
}

/// Where a step took an amount for a debit, that is all that was taken for it; where none did,
/// nothing was.
proof fn lemma_taken_for(
    worlds: Seq<World>,
    steps: Seq<Step>,
    n: int,
    debit_id: u128,
    amount: int,
)
    requires
        runs(worlds, steps),
        0 <= n < worlds.len(),
        uncut(steps, n),
        forall|i: int|
            0 <= i < n && (takes(#[trigger] worlds[i], steps[i]) matches Some(taken)
                && taken.debit_id == debit_id) ==> takes(worlds[i], steps[i])->Some_0.amount
                == amount,
    ensures
        taken_for(worlds, steps, n, debit_id) == if exists|i: int|
            0 <= i < n && (takes(#[trigger] worlds[i], steps[i]) matches Some(taken)
                && taken.debit_id == debit_id) {
            amount
        } else {
            0
        },
    decreases n,
{
    if n > 0 {
        assert(uncut(steps, n - 1));
        lemma_taken_for(worlds, steps, n - 1, debit_id, amount);
        let now = takes(worlds[n - 1], steps[n - 1]) matches Some(taken) && taken.debit_id
            == debit_id;
        if exists|i: int|
            0 <= i < n - 1 && (takes(#[trigger] worlds[i], steps[i]) matches Some(taken)
                && taken.debit_id == debit_id) {
            let i = choose|i: int|
                0 <= i < n - 1 && (takes(#[trigger] worlds[i], steps[i]) matches Some(taken)
                    && taken.debit_id == debit_id);
            assert(0 <= i < n && takes(worlds[i], steps[i]) is Some);
            if now {
                lemma_not_again(worlds, steps, i, n - 1);
            }
        } else if now {
            assert(takes(worlds[n - 1], steps[n - 1]) is Some);
        }
    }
}

/// However often a request is delivered, in a run in which no flow is cut off: at most one
/// success event carries its debit, at most its amount is taken in all, from its user's account,
/// and between flows the event was sent exactly where the amount was taken.
pub proof fn law_request_is_idempotent(
    worlds: Seq<World>,
    steps: Seq<Step>,
    n: int,
    req: DebitRequest,
)
    requires
        runs(worlds, steps),
        0 <= n < worlds.len(),
        uncut(steps, n),
        !running(worlds[n]),
        forall|i: int|
            0 <= i < n && (#[trigger] steps[i] matches Step::Debit(other) && other.debit_id
                == req.debit_id) ==> steps[i] == Step::Debit(req),
    ensures
        ({
            let w = worlds[n];
            let success = Outbound::Success(
                DebitSuccess { debit_id: req.debit_id, user_id: req.user_id, amount: req.amount },
            );
            &&& forall|i: int|
                0 <= i < w.sent.len() && #[trigger] w.sent[i] is Success && w.sent[i].subject()
                    == req.debit_id ==> w.sent[i] == success
            &&& forall|i: int, j: int|
                0 <= i < j < w.sent.len() ==> !(#[trigger] w.sent[i] == success
                    && #[trigger] w.sent[j] == success)
            &&& forall|i: int|
                0 <= i < n && (takes(#[trigger] worlds[i], steps[i]) matches Some(taken)
                    && taken.debit_id == req.debit_id) ==> takes(worlds[i], steps[i])->Some_0.user_id
                    == req.user_id
            &&& taken_for(worlds, steps, n, req.debit_id) == if w.sent.contains(success) {
                req.amount as int
            } else {
                0
            }
        }),
{
    let w = worlds[n];
    let taken = DebitSuccess {
        debit_id: req.debit_id,
        user_id: req.user_id,
        amount: req.amount,
    };
    let success = Outbound::Success(taken);
    law_every_run(worlds, steps, n, 0);
    assert forall|i: int|
        0 <= i < n && (takes(#[trigger] worlds[i], steps[i]) matches Some(t) && t.debit_id
            == req.debit_id) implies takes(worlds[i], steps[i]) == Some(taken) by {
        lemma_taken_is(worlds, steps, n, i, req);
    }
    lemma_taken_for(worlds, steps, n, req.debit_id, req.amount as int);
    law_success_means_taken(worlds, steps, n, taken);
    if w.sent.contains(success) {
        let i = choose|i: int|
            0 <= i < n && takes(#[trigger] worlds[i], steps[i]) == Some(taken);
        assert(takes(worlds[i], steps[i]) is Some);
    }
    assert forall|i: int|
        0 <= i < w.sent.len() && #[trigger] w.sent[i] is Success && w.sent[i].subject()
            == req.debit_id implies w.sent[i] == success by {
        let other = w.sent[i]->Success_0;
        assert(w.sent[i] == Outbound::Success(other));
        law_success_means_taken(worlds, steps, n, other);
        assert(w.sent.contains(Outbound::Success(other)));
        let k = choose|k: int|
            0 <= k < n && takes(#[trigger] worlds[k], steps[k]) == Some(other);
        assert(takes(worlds[k], steps[k]) == Some(taken));
    }
}

/// Where every request for a debit is the same, a step takes what it asks for.
proof fn lemma_taken_is(worlds: Seq<World>, steps: Seq<Step>, n: int, i: int, req: DebitRequest)
    requires
        runs(worlds, steps),
        0 <= i < n < worlds.len(),
        takes(worlds[i], steps[i]) matches Some(taken) && taken.debit_id == req.debit_id,
        forall|k: int|
            0 <= k < n && (#[trigger] steps[k] matches Step::Debit(other) && other.debit_id
                == req.debit_id) ==> steps[k] == Step::Debit(req),
    ensures
        takes(worlds[i], steps[i]) == Some(
            DebitSuccess { debit_id: req.debit_id, user_id: req.user_id, amount: req.amount },
        ),
{
    law_taken_as_asked(worlds, steps, i);
    let taken = takes(worlds[i], steps[i])->Some_0;
    let other = choose|other: DebitRequest| #[trigger]
        asked(steps, i, other) && other.debit_id == taken.debit_id && other.user_id
            == taken.user_id && other.amount == taken.amount;
    let k = choose|k: int| 0 <= k < i && #[trigger] steps[k] == Step::Debit(other);
    assert(steps[k] == Step::Debit(req));
}

/// `debit` cannot be taken from its user's account as it stands.
pub open spec fn unpayable(w: World, debit: PendingDebit) -> bool {
    debited(row_of(w.books, debit.user_id), debit.amount) is None
}

/// The flow is still to look at `debit`, or to be done with it.
pub open spec fn to_come(w: World, debit: PendingDebit) -> bool {
    ||| w.flow.rest.contains(debit)
    ||| w.flow.stage == (Stage::Retrying { debit })
    ||| w.flow.stage == (Stage::Expiring { debit })
    ||| w.flow.stage matches Stage::Abandoning { failed } && failed.debit_id == debit.debit_id
}

/// No parked debit could be paid, but for those that the flow is still to look at.
pub open spec fn none_payable(w: World) -> bool {
    forall|debit: PendingDebit| #[trigger]
        parks_listed(w.parked, debit) ==> unpayable(w, debit) || to_come(w, debit)
}

/// What was to come in `rest` is still to come once the flow has turned to the next.
proof fn lemma_next_to_come(w: World, rest: Seq<PendingDebit>, debit: PendingDebit)
    requires
        rest.contains(debit),
        rest.len() > 0 ==> w.flow.rest == rest.skip(1) && (w.flow.stage == (Stage::Retrying {
            debit: rest[0],
        }) || w.flow.stage == (Stage::Expiring { debit: rest[0] })),
    ensures
        to_come(w, debit),
{
    let i = choose|i: int| 0 <= i < rest.len() && rest[i] == debit;
    if i > 0 {
        assert(rest.skip(1)[i - 1] == debit);
    }
}

/// A step in which no action fails leaves no parked debit payable behind.
proof fn lemma_step_leaves_none_payable(w: World, step: Step, next: World)
    requires
        orderly(w),
        none_payable(w),
        follows(w, step, next),
        !(step is Break),
    ensures
        none_payable(next),
{
    assert forall|debit: PendingDebit| #[trigger] parks_listed(next.parked, debit) implies
        unpayable(next, debit) || to_come(next, debit) by {
        if let Step::Turn { text, now, wait } = step {
            match w.flow.stage {
                Stage::Crediting { user_id } => {
                    let rest = parked_for(w.parked, user_id);
                    assert(parks_listed(w.parked, debit));
                    law_listed_is_found(w.parked, user_id, debit);
                    if debit.user_id == user_id && next.books != w.books {
                        lemma_next_to_come(next, rest, debit);
                    }
                },
                Stage::Debiting { request } => {
                    if takes(w, step) is Some {
                        law_discarding_lists_no_other(w.parked, request.debit_id, debit);
                    } else if later(now, wait) is Some {
                        law_parking_lists_no_other(
                            w.parked,
                            deferred(request, later(now, wait)->0),
                            next.parked,
                            debit,
                        );
                    } else {
                        assert(parks_listed(w.parked, debit));
                    }
                },
                Stage::Retrying { debit: current } => {
                    if takes(w, step) is Some {
                        law_discarding_lists_no_other(w.parked, current.debit_id, debit);
                    } else {
                        assert(parks_listed(w.parked, debit));
                        if w.flow.rest.contains(debit) {
                            lemma_next_to_come(next, w.flow.rest, debit);
                        }
                    }
                },
                Stage::Abandoning { failed } => {
                    law_discarding_lists_no_other(w.parked, failed.debit_id, debit);
                },
                Stage::Announcing { event } => {
                    assert(parks_listed(w.parked, debit));
                    if w.flow.rest.contains(debit) {
                        lemma_next_to_come(next, w.flow.rest, debit);
                    }
                },
                _ => {
                    assert(parks_listed(w.parked, debit));
                },
            }
        } else if !(step is Restart) {
            assert(parks_listed(w.parked, debit));
        }
    }
}

/// In any run in which no action fails, no parked debit is payable that the flow is not still
/// to look at.
proof fn lemma_none_payable(worlds: Seq<World>, steps: Seq<Step>, n: int)
    requires
        runs(worlds, steps),
        0 <= n < worlds.len(),
        forall|i: int| 0 <= i < n ==> !(#[trigger] steps[i] is Break),
    ensures
        none_payable(worlds[n]),
    decreases n,
{
    if n > 0 {
        lemma_none_payable(worlds, steps, n - 1);
        law_every_run(worlds, steps, n - 1, 0);
        assert(follows(worlds[n - 1], steps[n - 1], worlds[n - 1 + 1]));
        assert(!(steps[n - 1] is Break));
        lemma_step_leaves_none_payable(worlds[n - 1], steps[n - 1], worlds[n]);
    }
}

/// In any run in which no action fails, restarts or not, and between flows, no debit that is
/// parked for a user could be taken from the account: its amount exceeds the balance, or there
/// is no account. It is the user's own, and has no outcome.
pub proof fn law_no_payable_debit_waits(
    worlds: Seq<World>,
    steps: Seq<Step>,
    n: int,
    user_id: u128,
    debit: PendingDebit,
)
    requires
        runs(worlds, steps),
        0 <= n < worlds.len(),
        forall|i: int| 0 <= i < n ==> !(#[trigger] steps[i] is Break),
        !running(worlds[n]),
        parked_for(worlds[n].parked, user_id).contains(debit),
    ensures
        debit.user_id == user_id,
        debited(row_of(worlds[n].books, user_id), debit.amount) is None,
        debit.amount >= 1 ==> debit.amount > balance_of(worlds[n].books, user_id),
        !on_record(worlds[n].books, debit.debit_id),
{
    law_every_run(worlds, steps, n, 0);
    lemma_none_payable(worlds, steps, n);
    law_listed_is_found(worlds[n].parked, user_id, debit);
}

/// One of the first `n` steps asked for `amount` from `user_id` for the debit `debit_id`.
pub open spec fn asked_for(
    steps: Seq<Step>,
    n: int,
    debit_id: u128,
    user_id: u128,
    amount: u64,
) -> bool {
    exists|req: DebitRequest| #[trigger]
        asked(steps, n, req) && req.debit_id == debit_id && req.user_id == user_id && req.amount
            == amount
}

/// `event` names the debit, the user and the amount of a request.
pub open spec fn names_a_request(steps: Seq<Step>, n: int, event: Outbound) -> bool {
    match event {
        Outbound::Success(success) => asked_for(
            steps,
            n,
            success.debit_id,
            success.user_id,
            success.amount,
        ),
        Outbound::Failed(failed) => asked_for(
            steps,
            n,
            failed.debit_id,
            failed.user_id,
            failed.amount,
        ),
    }
}

/// Every outcome, on record, on its way there, told or about to be told, is that of a request.
pub open spec fn outcomes_asked(w: World, steps: Seq<Step>, n: int) -> bool {
    &&& forall|k: int|
        0 <= k < w.books.processed.len() ==> asked(
            steps,
            n,
            DebitRequest {
                debit_id: (#[trigger] w.books.processed[k]).debit_id,
                order_id: w.books.processed[k].order_id,
                user_id: w.books.processed[k].user_id,
                amount: w.books.processed[k].amount,
            },
        )
    &&& forall|i: int| 0 <= i < w.sent.len() ==> names_a_request(steps, n, #[trigger] w.sent[i])
    &&& match w.flow.stage {
        Stage::Settling { success } => {
            &&& w.action matches Action::Ask(
                RepoCall::MarkProcessed { debit_id, order_id, user_id, amount },
            )
            &&& asked(steps, n, DebitRequest { debit_id, order_id, user_id, amount })
        },
        Stage::Abandoning { failed } => names_a_request(steps, n, Outbound::Failed(failed)),
        Stage::Announcing { event } => names_a_request(steps, n, event),
        _ => true,
    }
}

/// What the first steps asked for, more of them asked for too.
proof fn lemma_asked_before(steps: Seq<Step>, m: int, n: int)
    requires
        m <= n,
    ensures
        forall|req: DebitRequest| #[trigger] asked(steps, m, req) ==> asked(steps, n, req),
        forall|event: Outbound| #[trigger]
            names_a_request(steps, m, event) ==> names_a_request(steps, n, event),
{
    assert forall|req: DebitRequest| #[trigger] asked(steps, m, req) implies asked(
        steps,
        n,
        req,
    ) by {
        let i = choose|i: int| 0 <= i < m && #[trigger] steps[i] == Step::Debit(req);
        assert(0 <= i < n && steps[i] == Step::Debit(req));
    }
    assert forall|event: Outbound| #[trigger] names_a_request(steps, m, event) implies
        names_a_request(steps, n, event) by {
        let (debit_id, user_id, amount) = match event {
            Outbound::Success(success) => (success.debit_id, success.user_id, success.amount),
            Outbound::Failed(failed) => (failed.debit_id, failed.user_id, failed.amount),
        };
        let req = choose|req: DebitRequest| #[trigger]
            asked(steps, m, req) && req.debit_id == debit_id && req.user_id == user_id
                && req.amount == amount;
        assert(asked(steps, n, req));
    }
}

/// In any run every outcome is that of a request: what is on record says exactly what was asked
/// for, with its order, and every event names the debit, the user and the amount of a request.
pub proof fn law_outcome_was_asked_for(worlds: Seq<World>, steps: Seq<Step>, n: int)
    requires
        runs(worlds, steps),
        0 <= n < worlds.len(),
    ensures
        outcomes_asked(worlds[n], steps, n),
    decreases n,
{
    if n > 0 {
        let (w, next) = (worlds[n - 1], worlds[n]);
        law_outcome_was_asked_for(worlds, steps, n - 1);
        lemma_was_asked(worlds, steps, n - 1);
        law_every_run(worlds, steps, n - 1, 0);
        assert(follows(worlds[n - 1], steps[n - 1], worlds[n - 1 + 1]));
        lemma_asked_before(steps, n - 1, n);
        assert(outcomes_asked(w, steps, n));
        if steps[n - 1] is Turn {
            match w.flow.stage {
                Stage::Debiting { request } => {
                    assert(asked(steps, n, request));
                },
                Stage::Retrying { debit } => {
                    assert(asked(steps, n, request_of(debit)));
                },
                Stage::Expiring { debit } => {
                    assert(asked(steps, n, request_of(debit)));
                    assert(asked(
                        steps,
                        n,
                        DebitRequest {
                            debit_id: debit.debit_id,
                            order_id: debit.order_id,
                            user_id: debit.user_id,
                            amount: debit.amount,
                        },
                    ));
                },
                Stage::Settling { success } => {
                    if let Action::Ask(call) = w.action {
                        if let RepoCall::MarkProcessed { debit_id, order_id, user_id, amount } =
                            call {
                            assert(asked(
                                steps,
                                n,
                                DebitRequest { debit_id, order_id, user_id, amount },
                            ));
                        }
                    }
                },
                _ => {},
            }
            assert forall|i: int| 0 <= i < next.sent.len() implies names_a_request(
                steps,
                n,
                #[trigger] next.sent[i],
            ) by {
                if i < w.sent.len() {
                    assert(next.sent[i] == w.sent[i]);
                }
            }
            assert forall|k: int| 0 <= k < next.books.processed.len() implies asked(
                steps,
                n,
                DebitRequest {
                    debit_id: (#[trigger] next.books.processed[k]).debit_id,
                    order_id: next.books.processed[k].order_id,
                    user_id: next.books.processed[k].user_id,
                    amount: next.books.processed[k].amount,
                },
            ) by {
                if k < w.books.processed.len() {
                    assert(next.books.processed[k] == w.books.processed[k]);
                }
            }
        }
    }
}

/// Every turn comes at an instant that a clock shows, and every wait is one.
pub open spec fn on_time(steps: Seq<Step>) -> bool {
    forall|i: int|
        0 <= i < steps.len() ==> (#[trigger] steps[i] matches Step::Turn { now, wait, .. }
            ==> now.on_clock() && wait.valid())
}

/// The nanoseconds from the epoch to `at`.
pub open spec fn nanos_at(at: Timestamp) -> int {
    at.secs * 1_000_000_000 + at.nanos
}

/// Step `j` parked `debit`: it was asked for and not taken, and its deadline is the wait of that
/// step after the instant of that step, to the nanosecond.
pub open spec fn parked_at(
    worlds: Seq<World>,
    steps: Seq<Step>,
    j: int,
    debit: PendingDebit,
) -> bool {
    &&& worlds[j].flow.stage == (Stage::Debiting { request: request_of(debit) })
    &&& takes(worlds[j], steps[j]) is None
    &&& steps[j] matches Step::Turn { now, wait, .. }
    &&& nanos_at(debit.expires_at) == nanos_at(now) + wait.secs * 1_000_000_000 + wait.nanos
    &&& debit.expires_at.on_clock()
}

/// One of the first `n` steps parked `debit`.
pub open spec fn was_parked(
    worlds: Seq<World>,
    steps: Seq<Step>,
    n: int,
    debit: PendingDebit,
) -> bool {
    exists|j: int| 0 <= j < n && #[trigger] parked_at(worlds, steps, j, debit)
}

/// Every debit that is parked, or that the flow looks at as parked, was parked by some step.
pub open spec fn all_parked(worlds: Seq<World>, steps: Seq<Step>, n: int) -> bool {
    let w = worlds[n];
    &&& forall|id: u128| #[trigger]
        w.parked.debits.contains_key(id) ==> was_parked(worlds, steps, n, w.parked.debits[id])
    &&& forall|i: int|
        0 <= i < w.flow.rest.len() ==> was_parked(worlds, steps, n, #[trigger] w.flow.rest[i])
    &&& match w.flow.stage {
        Stage::Retrying { debit } => was_parked(worlds, steps, n, debit),
        Stage::Expiring { debit } => was_parked(worlds, steps, n, debit),
        _ => true,
    }
}

/// In any run every debit that is parked was parked by some step.
proof fn lemma_was_parked(worlds: Seq<World>, steps: Seq<Step>, n: int)
    requires
        runs(worlds, steps),
        on_time(steps),
        0 <= n < worlds.len(),
    ensures
        all_parked(worlds, steps, n),
    decreases n,
{
    if n > 0 {
        let (w, next) = (worlds[n - 1], worlds[n]);
        lemma_was_parked(worlds, steps, n - 1);
        law_every_run(worlds, steps, n - 1, 0);
        assert(follows(worlds[n - 1], steps[n - 1], worlds[n - 1 + 1]));
        assert forall|debit: PendingDebit| #[trigger]
            was_parked(worlds, steps, n - 1, debit) implies was_parked(
            worlds,
            steps,
            n,
            debit,
        ) by {
            let j = choose|j: int| 0 <= j < n - 1 && #[trigger] parked_at(worlds, steps, j, debit);
            assert(0 <= j < n && parked_at(worlds, steps, j, debit));
        }
        assert forall|id: u128| #[trigger] w.parked.debits.contains_key(id) implies was_parked(
            worlds,
            steps,
            n,
            w.parked.debits[id],
        ) by {}
        assert forall|i: int| 0 <= i < w.flow.rest.len() implies was_parked(
            worlds,
            steps,
            n,
            #[trigger] w.flow.rest[i],
        ) by {}
        if let Step::Turn { text, now, wait } = steps[n - 1] {
            match w.flow.stage {
                Stage::Crediting { user_id } => {
                    let rest = parked_for(w.parked, user_id);
                    law_lookup_is_right(w.parked, user_id);
                    lemma_next_was_parked(worlds, steps, n, rest);
                },
                Stage::Debiting { request } => {
                    law_deadline_is_the_sum(now, wait);
                    if takes(w, steps[n - 1]) is None && later(now, wait) is Some {
                        let pending = deferred(request, later(now, wait)->0);
                        assert(request_of(pending) == request);
                        assert(parked_at(worlds, steps, n - 1, pending));
                        let whole = parked_with(w.parked, pending);
                        assert forall|id: u128| #[trigger]
                            next.parked.debits.contains_key(id) implies was_parked(
                            worlds,
                            steps,
                            n,
                            next.parked.debits[id],
                        ) by {
                            assert(whole.debits.contains_key(id) && next.parked.debits[id]
                                == whole.debits[id]);
                        }
                    }
                },
                Stage::Retrying { debit } => {
                    if takes(w, steps[n - 1]) is None {
                        lemma_next_was_parked(worlds, steps, n, w.flow.rest);
                    }
                },
                Stage::Announcing { event } => {
                    lemma_next_was_parked(worlds, steps, n, w.flow.rest);
                },
                _ => {},
            }
        }
    }
}

/// Turning to the next of `rest` looks at what was parked.
proof fn lemma_next_was_parked(
    worlds: Seq<World>,
    steps: Seq<Step>,
    n: int,
    rest: Seq<PendingDebit>,
)
    requires
        forall|id: u128| #[trigger]
            worlds[n].parked.debits.contains_key(id) ==> was_parked(
                worlds,
                steps,
                n,
                worlds[n].parked.debits[id],
            ),
        forall|i: int| 0 <= i < rest.len() ==> was_parked(worlds, steps, n, #[trigger] rest[i]),
        worlds[n].flow.stage is Closed ==> worlds[n].flow.rest.len() == 0,
        worlds[n].flow.stage is Closed || (rest.len() > 0 && worlds[n].flow.rest == rest.skip(1)
            && (worlds[n].flow.stage == (Stage::Retrying { debit: rest[0] })
            || worlds[n].flow.stage == (Stage::Expiring { debit: rest[0] }))),
    ensures
        all_parked(worlds, steps, n),
{
    if rest.len() > 0 {
        assert(was_parked(worlds, steps, n, rest[0]));
        let tail = rest.skip(1);
        assert forall|i: int| 0 <= i < tail.len() implies was_parked(
            worlds,
            steps,
            n,
            #[trigger] tail[i],
        ) by {
            assert(tail[i] == rest[i + 1]);
        }
    }
}

/// A parked debit is given up only once the wait that it was parked with is over, and tried only
/// while it is not: the flow turns to it at an instant that lies so many nanoseconds after the
/// one at which it was parked.
pub proof fn law_wait_is_kept(
    worlds: Seq<World>,
    steps: Seq<Step>,
    n: int,
    now: Timestamp,
    debit: PendingDebit,
)
    requires
        runs(worlds, steps),
        on_time(steps),
        0 <= n < steps.len(),
        steps[n] matches Step::Turn { now: at, .. } && at == now,
        worlds[n + 1].flow.stage == (Stage::Retrying { debit }) || worlds[n + 1].flow.stage == (
        Stage::Expiring { debit }),
    ensures
        exists|j: int|
            0 <= j < n && #[trigger] parked_at(worlds, steps, j, debit) && (steps[j] matches
                Step::Turn { now: then, wait, .. } && {
                let waited = nanos_at(now) - nanos_at(then);
                let allowed = wait.secs * 1_000_000_000 + wait.nanos;
                if worlds[n + 1].flow.stage is Expiring {
                    waited >= allowed
                } else {
                    waited < allowed
                }
            }),
{
    lemma_was_parked(worlds, steps, n);
    lemma_was_parked(worlds, steps, n + 1);
    law_every_run(worlds, steps, n, 0);
    assert(follows(worlds[n], steps[n], worlds[n + 1]));
    assert(steps[n] is Turn);
    let j = choose|j: int| 0 <= j < n + 1 && #[trigger] parked_at(worlds, steps, j, debit);
    assert(j != n) by {
        if j == n {
            assert(worlds[n].flow.stage is Debiting);
        }
    }
    law_order_counts_nanoseconds(now, debit.expires_at);
}

/// The event that a step queues, under the id `id`.
pub open spec fn queued_by(w: World, step: Step, id: u128) -> Option<EventView> {
    match (step, w.action) {
        (Step::Turn { text, .. }, Action::Encode(event)) => Some(
            EventView {
                id,
                topic: if event is Success {
                    "payment.debit.success"@
                } else {
                    "payment.debit.failed"@
                },
                payload: text@,
            },
        ),
        _ => None,
    }
}

/// A step that carries out the encoding of an event queues exactly that event, under some drawn
/// id, with the topic for its outcome and the text as its payload, and hands it out; no other
/// step but a drain or a restart changes the queue.
pub proof fn law_step_queues_its_event(w: World, step: Step, next: World)
    requires
        orderly(w),
        follows(w, step, next),
    ensures
        w.action is Encode && step is Turn ==> {
            &&& exists|id: u128| #[trigger]
                is_drawn_id(id) && queues(w.queued, queued_by(w, step, id)->0, next.queued)
            &&& next.sent == w.sent.push(w.action->Encode_0)
        },
        !(w.action is Encode && step is Turn) && !(step is Drain) && !(step is Restart) ==> {
            &&& next.queued == w.queued
            &&& next.sent == w.sent
        },
{
    if w.action is Encode && step is Turn {
        let event = w.action->Encode_0;
        let text = step->text;
        let id = choose|id: u128| #[trigger]
            is_drawn_id(id) && is_random_id(id) && queues(
                w.queued,
                EventView { id, topic: event.topic_name(), payload: text@ },
                next.queued,
            );
        assert(queued_by(w, step, id)->0 == EventView {
            id,
            topic: event.topic_name(),
            payload: text@,
        });
        assert(is_drawn_id(id));
    }
}

/// The queue of a run: it begins empty, `ids` are the ids under which its steps queue events, no
/// two the same and with room for each, and `outs` is what its drains give.
pub open spec fn queue_of_run(
    worlds: Seq<World>,
    steps: Seq<Step>,
    ids: Seq<u128>,
    outs: Seq<Seq<EventView>>,
) -> bool {
    &&& runs(worlds, steps)
    &&& ids.len() == steps.len()
    &&& outs.len() == steps.len()
    &&& ids.no_duplicates()
    &&& worlds[0].queued.events == Map::<u128, EventView>::empty()
    &&& forall|i: int|
        0 <= i < steps.len() ==> !(#[trigger] steps[i] is Restart) && (steps[i] is Drain ==> lists(
            worlds[i].queued.events,
            outs[i],
        ) && worlds[i + 1].queued.events == Map::<u128, EventView>::empty())
    &&& forall|i: int|
        0 <= i < steps.len() ==> (queued_by(#[trigger] worlds[i], steps[i], ids[i]) matches Some(
            event,
        ) ==> queues(worlds[i].queued, event, worlds[i + 1].queued)
            && worlds[i].queued.events.insert(ids[i], event).dom().len()
            <= worlds[i].queued.limit)
}

/// The queue of a run by itself: what is in it before and after each step, what each step puts
/// there, and which steps drain it.
pub struct Course {
    pub held: Seq<Map<u128, EventView>>,
    pub put: Seq<Option<EventView>>,
    pub drained: Seq<bool>,
}

/// Each step does to the queue what it is said to do, and no id comes twice.
pub open spec fn goes(c: Course) -> bool {
    &&& c.held.len() == c.put.len() + 1
    &&& c.drained.len() == c.put.len()
    &&& c.held[0] == Map::<u128, EventView>::empty()
    &&& forall|m: int|
        0 <= m < c.put.len() ==> c.held[m + 1] == if #[trigger] c.drained[m] {
            Map::<u128, EventView>::empty()
        } else {
            match c.put[m] {
                Some(event) => c.held[m].insert(event.id, event),
                None => c.held[m],
            }
        }
    &&& forall|i: int| 0 <= i < c.put.len() && #[trigger] c.drained[i] ==> c.put[i] is None
    &&& forall|i: int, j: int|
        0 <= i < j < c.put.len() && (#[trigger] c.put[i]) is Some && (#[trigger] c.put[j]) is Some
            ==> c.put[i]->0.id != c.put[j]->0.id
}

/// What step `i` put into the queue is there after `n` steps.
pub open spec fn still_there(c: Course, i: int, n: int) -> bool {
    &&& 0 <= i < n
    &&& c.put[i] is Some
    &&& forall|k: int| i < k < n ==> !(#[trigger] c.drained[k])
}

/// What is queued after `n` steps is what they put there and did not drain since.
proof fn lemma_course(c: Course, n: int)
    requires
        goes(c),
        0 <= n < c.held.len(),
    ensures
        forall|i: int| #[trigger]
            still_there(c, i, n) ==> c.held[n].contains_key(c.put[i]->0.id)
                && c.held[n][c.put[i]->0.id] == c.put[i]->0,
        forall|id: u128| #[trigger]
            c.held[n].contains_key(id) ==> exists|i: int| #[trigger]
                still_there(c, i, n) && c.put[i]->0.id == id,
    decreases n,
{
    if n > 0 {
        let m = n - 1;
        lemma_course(c, m);
        let drained = c.drained[m];
        assert forall|i: int| #[trigger] still_there(c, i, n) implies c.held[n].contains_key(
            c.put[i]->0.id,
        ) && c.held[n][c.put[i]->0.id] == c.put[i]->0 by {
            if i < m {
                assert(!c.drained[m]);
                assert(still_there(c, i, m));
                if c.put[m] is Some {
                    assert(c.put[i]->0.id != c.put[m]->0.id);
                }
            }
        }
        assert forall|id: u128| #[trigger] c.held[n].contains_key(id) implies exists|i: int|
            #[trigger]
            still_there(c, i, n) && c.put[i]->0.id == id by {
            if c.put[m] is Some && c.put[m]->0.id == id {
                assert(still_there(c, m, n));
            } else {
                assert(c.held[m].contains_key(id));
                let i = choose|i: int| #[trigger]
                    still_there(c, i, m) && c.put[i]->0.id == id;
                assert forall|k: int| i < k < n implies !(#[trigger] c.drained[k]) by {}
                assert(still_there(c, i, n));
            }
        }
    }
}

/// A drain gives what was put into the queue since the last drain, and nothing else.
proof fn lemma_course_drains(c: Course, d: int, out: Seq<EventView>, i: int, other: EventView)
    requires
        goes(c),
        0 <= d < c.put.len(),
        lists(c.held[d], out),
        0 <= i < c.put.len(),
        c.put[i] is Some,
    ensures
        out.contains(c.put[i]->0) <==> still_there(c, i, d),
        out.contains(other) ==> exists|j: int|
            0 <= j < d && #[trigger] c.put[j] == Some(other),
        out.no_duplicates(),
{
    let event = c.put[i]->0;
    let held = c.held[d];
    lemma_course(c, d);
    if still_there(c, i, d) {
        let k = choose|k: int| 0 <= k < out.len() && (#[trigger] out[k]).id == event.id;
        assert(out[k] == event);
    }
    if out.contains(event) {
        let k = choose|k: int| 0 <= k < out.len() && out[k] == event;
        assert(held.contains_key(out[k].id));
        let j = choose|j: int| #[trigger] still_there(c, j, d) && c.put[j]->0.id == event.id;
        assert(c.put[i] is Some && c.put[j] is Some);
        assert(i == j);
    }
    if out.contains(other) {
        let k = choose|k: int| 0 <= k < out.len() && out[k] == other;
        assert(held.contains_key(out[k].id));
        let j = choose|j: int| #[trigger] still_there(c, j, d) && c.put[j]->0.id == other.id;
        assert(c.put[j] == Some(other));
    }
}

/// What one step of a run does to the queue.
proof fn lemma_queue_step(
    worlds: Seq<World>,
    steps: Seq<Step>,
    ids: Seq<u128>,
    outs: Seq<Seq<EventView>>,
    m: int,
)
    requires
        queue_of_run(worlds, steps, ids, outs),
        0 <= m < steps.len(),
    ensures
        worlds[m + 1].queued.events == if steps[m] is Drain {
            Map::<u128, EventView>::empty()
        } else {
            match queued_by(worlds[m], steps[m], ids[m]) {
                Some(event) => worlds[m].queued.events.insert(ids[m], event),
                None => worlds[m].queued.events,
            }
        },
{
    law_every_run(worlds, steps, m, 0);
    assert(follows(worlds[m], steps[m], worlds[m + 1]));
    assert(!(steps[m] is Restart));
    law_step_queues_its_event(worlds[m], steps[m], worlds[m + 1]);
    assert(queued_by(worlds[m], steps[m], ids[m]) matches Some(event) ==> queues(
        worlds[m].queued,
        event,
        worlds[m + 1].queued,
    ));
}

/// The course of the queue of a run.
pub open spec fn course_of(worlds: Seq<World>, steps: Seq<Step>, ids: Seq<u128>) -> Course {
    Course {
        held: worlds.map_values(|w: World| w.queued.events),
        put: Seq::new(steps.len(), |i: int| queued_by(worlds[i], steps[i], ids[i])),
        drained: steps.map_values(|step: Step| step is Drain),
    }
}

/// The queue of a run goes as its steps say.
proof fn lemma_run_goes(
    worlds: Seq<World>,
    steps: Seq<Step>,
    ids: Seq<u128>,
    outs: Seq<Seq<EventView>>,
)
    requires
        queue_of_run(worlds, steps, ids, outs),
    ensures
        goes(course_of(worlds, steps, ids)),
{
    let c = course_of(worlds, steps, ids);
    assert forall|m: int| 0 <= m < c.put.len() implies c.held[m + 1] == if #[trigger] c.drained[m] {
        Map::<u128, EventView>::empty()
    } else {
        match c.put[m] {
            Some(event) => c.held[m].insert(event.id, event),
            None => c.held[m],
        }
    } by {
        lemma_queue_step(worlds, steps, ids, outs, m);
    }
}

/// In a run with room in the queue, every event that is handed out leaves in exactly one drain,
/// the first one after it was queued, with the topic for its outcome and its text as payload;
/// until then it is in the queue, and nothing else ever is or leaves.
pub proof fn law_event_of_run_leaves_once(
    worlds: Seq<World>,
    steps: Seq<Step>,
    ids: Seq<u128>,
    outs: Seq<Seq<EventView>>,
    i: int,
    d: int,
    other: EventView,
)
    requires
        queue_of_run(worlds, steps, ids, outs),
        0 <= i < steps.len(),
        queued_by(worlds[i], steps[i], ids[i]) is Some,
        0 <= d < steps.len(),
        steps[d] is Drain,
    ensures
        outs[d].contains(queued_by(worlds[i], steps[i], ids[i])->0) <==> i < d && forall|k: int|
            i < k < d ==> !(#[trigger] steps[k] is Drain),
        outs[d].contains(other) ==> exists|j: int|
            0 <= j < d && queued_by(#[trigger] worlds[j], steps[j], ids[j]) == Some(other),
        outs[d].no_duplicates(),
{
    let c = course_of(worlds, steps, ids);
    lemma_run_goes(worlds, steps, ids, outs);
    assert(steps[d] is Drain ==> lists(worlds[d].queued.events, outs[d]));
    lemma_course_drains(c, d, outs[d], i, other);
    assert(still_there(c, i, d) <==> i < d && forall|k: int|
        i < k < d ==> !(#[trigger] steps[k] is Drain)) by {
        if still_there(c, i, d) {
            assert forall|k: int| i < k < d implies !(#[trigger] steps[k] is Drain) by {
                assert(!c.drained[k]);
            }
        }
        if i < d && forall|k: int| i < k < d ==> !(#[trigger] steps[k] is Drain) {
            assert forall|k: int| i < k < d implies !(#[trigger] c.drained[k]) by {
                assert(!(steps[k] is Drain));
            }
        }
    }
    if outs[d].contains(other) {
        let j = choose|j: int| 0 <= j < d && #[trigger] c.put[j] == Some(other);
        assert(queued_by(worlds[j], steps[j], ids[j]) == Some(other));
    }
}

} // verus!
