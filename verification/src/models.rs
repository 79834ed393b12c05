//! The data of the payment service.
//!
//! Identifiers are UUIDs held as 128-bit integers, and amounts are in the smallest unit of the
//! currency.

use crate::time::Timestamp;
use vstd::prelude::*;

verus! {

/// A request to add `amount` to a user's account.
#[derive(Clone, Copy, Debug, PartialEq, Eq, Structural)]
pub struct CreditRequest {
    pub user_id: u128,
    pub amount: u64,
}

/// Inbound event: a caller wants to debit a user's account for an order.
///
/// `debit_id` is the caller's idempotency key. Once a debit with this id has been processed
/// (success or permanent failure) the id is on record, and a message that carries it again is
/// ignored.
#[derive(Clone, Copy, Debug, PartialEq, Eq, Structural)]
pub struct DebitRequest {
    pub debit_id: u128,
    pub order_id: u128,
    pub user_id: u128,
    pub amount: u64,
}

/// Outbound event: a debit was taken from the account.
#[derive(Clone, Copy, Debug, PartialEq, Eq, Structural)]
pub struct DebitSuccess {
    pub debit_id: u128,
    pub user_id: u128,
    pub amount: u64,
}

/// Outbound event: a debit was given up.
///
/// `balance` is the user's balance when that was decided.
#[derive(Clone, Copy, Debug, PartialEq, Eq, Structural)]
pub struct DebitFailed {
    pub debit_id: u128,
    pub user_id: u128,
    pub amount: u64,
    pub balance: u64,
    pub reason: DebitFailureReason,
}

/// Why a deferred debit was given up.
#[derive(Clone, Copy, Debug, PartialEq, Eq, Structural)]
pub enum DebitFailureReason {
    /// The debit waited longer than the service's maximum wait.
    MaximumWaitExceeded,
}

/// A debit that waits for a credit to cover it before its deadline.
///
/// Pending debits are not durable: they are lost when the process ends.
#[derive(Clone, Copy, Debug, PartialEq, Eq, Structural)]
pub struct PendingDebit {
    pub debit_id: u128,
    pub order_id: u128,
    pub user_id: u128,
    pub amount: u64,
    /// From this instant on the debit is given up.
    pub expires_at: Timestamp,
}

/// An outbound event that waits to be published, its payload as JSON text.
#[derive(Clone, Debug)]
pub struct PendingEvent {
    pub id: u128,
    pub topic: String,
    pub payload: String,
}

/// A queued event, mathematically.
pub struct EventView {
    pub id: u128,
    pub topic: Seq<char>,
    pub payload: Seq<char>,
}

impl View for PendingEvent {
    type V = EventView;

    open spec fn view(&self) -> EventView {
        EventView { id: self.id, topic: self.topic@, payload: self.payload@ }
    }
}

/// One line of a statement.
#[derive(Clone, Copy, Debug, PartialEq, Eq, Structural)]
pub enum LedgerEntry {
    Credit { amount: u64, at: Timestamp },
    Debit { debit_id: u128, order_id: u128, amount: u64, at: Timestamp },
}

impl LedgerEntry {
    /// When the entry was booked.
    pub open spec fn instant(self) -> Timestamp {
        match self {
            LedgerEntry::Credit { at, .. } => at,
            LedgerEntry::Debit { at, .. } => at,
        }
    }

    /// When the entry was booked.
    pub fn at(&self) -> (at: Timestamp)
        ensures
            at == self.instant(),
    {
        match self {
            LedgerEntry::Credit { at, .. } => *at,
            LedgerEntry::Debit { at, .. } => *at,
        }
    }
}

} // verus!
