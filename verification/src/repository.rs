//! What the durable tables hold, and the rules for changing and reading them.
//!
//! Four tables survive a restart: the account balances, the credits, the processed debits, and
//! the ids of the debits that were given up. The last two together make debits idempotent. The
//! processed debits are also the history of debits for statements, so that a debit that was
//! given up, and is no part of that history, is on record apart from them.
//!
//! ```sql
//! CREATE TABLE IF NOT EXISTS accounts (
//!     user_id    TEXT PRIMARY KEY,
//!     balance    INTEGER NOT NULL
//! );
//!
//! CREATE TABLE IF NOT EXISTS credits (
//!     id         INTEGER PRIMARY KEY AUTOINCREMENT,
//!     user_id    TEXT    NOT NULL,
//!     amount     INTEGER NOT NULL,
//!     created_at TEXT    NOT NULL
//! );
//! CREATE INDEX IF NOT EXISTS idx_credits_user_time ON credits(user_id, created_at);
//!
//! CREATE TABLE IF NOT EXISTS processed_debits (
//!     debit_id   TEXT PRIMARY KEY,
//!     order_id   TEXT    NOT NULL,
//!     user_id    TEXT    NOT NULL,
//!     amount     INTEGER NOT NULL,
//!     created_at TEXT    NOT NULL
//! );
//! CREATE INDEX IF NOT EXISTS idx_processed_debits_user_time
//!     ON processed_debits(user_id, created_at);
//!
//! CREATE TABLE IF NOT EXISTS abandoned_debits (
//!     debit_id   TEXT PRIMARY KEY
//! );
//! ```
//!
//! An amount is a 64-bit unsigned integer, and a column holds its bits as a signed one.

use crate::ids::{format_id, id_text, parsed_id};
use crate::time::{
    format_rfc3339, is_clock_reading, rfc3339_instant, rfc3339_text, utc_now, Timestamp,
};
use vstd::prelude::*;

verus! {

/// The signed integer with the bits of `amount`.
pub open spec fn stored(amount: u64) -> i64 {
    if amount <= i64::MAX {
        amount as i64
    } else {
        (amount - 0x1_0000_0000_0000_0000) as i64
    }
}

/// The amount with the bits of `column`.
pub open spec fn amount_in(column: i64) -> u64 {
    if column >= 0 {
        column as u64
    } else {
        (column + 0x1_0000_0000_0000_0000) as u64
    }
}

/// The integer that a column holds for `amount`.
pub fn to_column(amount: u64) -> (column: i64)
    ensures
        column == stored(amount),
{
    if amount <= 0x7FFF_FFFF_FFFF_FFFF {
        amount as i64
    } else {
        -((u64::MAX - amount) as i64) - 1
    }
}

/// The amount for which a column holds `column`.
pub fn from_column(column: i64) -> (amount: u64)
    ensures
        amount == amount_in(column),
{
    if column >= 0 {
        column as u64
    } else {
        u64::MAX - (-(column + 1)) as u64
    }
}

/// Nothing is lost between an amount and its column.
pub proof fn law_column_keeps_amount(amount: u64, column: i64)
    ensures
        amount_in(stored(amount)) == amount,
        stored(amount_in(column)) == column,
{
}

/// The balance of a user whose account row, if there is one, holds `row`.
pub open spec fn balance_in(row: Option<i64>) -> u64 {
    match row {
        Some(column) => amount_in(column),
        None => 0,
    }
}

/// The balance of a user whose account row, if there is one, holds `row`.
pub fn balance(row: Option<i64>) -> (r: u64)
    ensures
        r == balance_in(row),
{
    match row {
        Some(column) => from_column(column),
        None => 0,
    }
}

/// What the account row holds after `amount` is added to it, where the sum is an amount.
pub open spec fn credited(row: Option<i64>, amount: u64) -> Option<i64> {
    if balance_in(row) + amount <= u64::MAX {
        Some(stored((balance_in(row) + amount) as u64))
    } else {
        None
    }
}

/// What the account row holds after `amount` is taken from it, where there is an account and
/// its balance suffices.
pub open spec fn debited(row: Option<i64>, amount: u64) -> Option<i64> {
    if row is Some && amount <= balance_in(row) {
        Some(stored((balance_in(row) - amount) as u64))
    } else {
        None
    }
}

/// What the account row holds after `amount` is taken from it, or `None` where there is no
/// account or its balance is insufficient.
pub fn try_debit(row: Option<i64>, amount: u64) -> (r: Option<i64>)
    ensures
        r == debited(row, amount),
{
    match row {
        Some(column) => {
            let balance: u64 = from_column(column);
            if balance < amount {
                None
            } else {
                Some(to_column(balance - amount))
            }
        },
        None => None,
    }
}

/// A column holds an amount up to the power of two past the 64 bits, and a small amount as it is.
pub proof fn law_column_is_the_amount(amount: u64, column: i64)
    ensures
        amount_in(column) == column as int % 0x1_0000_0000_0000_0000,
        stored(amount) as int % 0x1_0000_0000_0000_0000 == amount,
        amount <= 0x7FFF_FFFF_FFFF_FFFF ==> stored(amount) == amount,
{
}

/// A credit raises the balance by its amount, and is refused exactly where no amount is that
/// large.
pub proof fn law_credit_raises(row: Option<i64>, amount: u64)
    ensures
        credited(row, amount) is None <==> balance_in(row) + amount >= 0x1_0000_0000_0000_0000,
        credited(row, amount) is Some ==> balance_in(credited(row, amount)) == balance_in(row)
            + amount,
{
}

/// A debit that is taken lowers the balance by its amount. It is taken from an account with at
/// least that balance, and from no other. A credit of the amount undoes it.
pub proof fn law_debit_lowers(row: Option<i64>, amount: u64)
    ensures
        debited(row, amount) is Some <==> row is Some && balance_in(row) >= amount,
        debited(row, amount) is Some ==> {
            &&& balance_in(debited(row, amount)) == balance_in(row) - amount
            &&& credited(debited(row, amount), amount) == row
        },
        balance_in(None) == 0,
        row matches Some(column) ==> balance_in(row) == column as int % 0x1_0000_0000_0000_0000,
{
    if let Some(column) = row {
        law_column_keeps_amount(amount_in(column), column);
        law_column_is_the_amount(amount_in(column), column);
    }
}

/// Whether a debit is on record, from what `SELECT EXISTS` gives for its id among the processed
/// and the abandoned debits.
pub fn debit_processed(found: i64) -> (r: bool)
    ensures
        r == (found != 0),
{
    found != 0
}

/// A row of the table of credits, apart from its user.
#[derive(Clone, Debug)]
pub struct CreditRow {
    pub amount: i64,
    pub created_at: String,
}

/// A row of the table of processed debits, apart from its user.
#[derive(Clone, Debug)]
pub struct DebitRow {
    pub debit_id: String,
    pub order_id: String,
    pub amount: i64,
    pub created_at: String,
}

/// What one credit writes: the user's new balance, and a row of credits.
#[derive(Clone, Debug)]
pub struct CreditWrite {
    pub user_id: String,
    pub balance: i64,
    pub row: CreditRow,
}

/// What the record of a processed debit writes.
#[derive(Clone, Debug)]
pub struct DebitWrite {
    pub user_id: String,
    pub row: DebitRow,
}

/// The new balance does not fit in the account.
#[derive(Clone, Copy, Debug, PartialEq, Eq, Structural)]
pub struct BalanceOverflow;

/// `row` is the row for a credit of `amount` at `now`.
pub open spec fn records_credit(row: CreditRow, amount: u64, now: Timestamp) -> bool {
    &&& row.amount == stored(amount)
    &&& row.created_at@ == rfc3339_text(now)
    &&& now.in_four_digit_year() ==> rfc3339_instant(row.created_at@) == Some(now)
}

/// `row` is the row for a debit of `amount` that was processed at `now`.
pub open spec fn records_debit(
    row: DebitRow,
    debit_id: u128,
    order_id: u128,
    amount: u64,
    now: Timestamp,
) -> bool {
    &&& row.debit_id@ == id_text(debit_id)
    &&& row.order_id@ == id_text(order_id)
    &&& parsed_id(row.debit_id@) == Some(debit_id)
    &&& parsed_id(row.order_id@) == Some(order_id)
    &&& row.amount == stored(amount)
    &&& row.created_at@ == rfc3339_text(now)
    &&& now.in_four_digit_year() ==> rfc3339_instant(row.created_at@) == Some(now)
}

/// What a credit of `amount` at `now` writes for a user whose account row, if there is one,
/// holds `row`. The account is made if it does not exist.
pub fn credit_at(user_id: u128, row: Option<i64>, amount: u64, now: Timestamp) -> (r: Result<
    CreditWrite,
    BalanceOverflow,
>)
    requires
        now.valid(),
    ensures
        r is Ok <==> credited(row, amount) is Some,
        r matches Ok(write) ==> {
            &&& write.user_id@ == id_text(user_id)
            &&& credited(row, amount) == Some(write.balance)
            &&& records_credit(write.row, amount, now)
        },
{
    match balance(row).checked_add(amount) {
        Some(sum) => Ok(
            CreditWrite {
                user_id: format_id(user_id),
                balance: to_column(sum),
                row: CreditRow { amount: to_column(amount), created_at: format_rfc3339(now) },
            },
        ),
        None => Err(BalanceOverflow),
    }
}

/// What a credit of `amount` writes now.
pub fn credit(user_id: u128, row: Option<i64>, amount: u64) -> (r: Result<
    CreditWrite,
    BalanceOverflow,
>)
    ensures
        r is Ok <==> credited(row, amount) is Some,
        r matches Ok(write) ==> {
            &&& write.user_id@ == id_text(user_id)
            &&& credited(row, amount) == Some(write.balance)
            &&& exists|now: Timestamp| #[trigger]
                is_clock_reading(now) && now.on_clock() && records_credit(write.row, amount, now)
        },
{
    let now = utc_now();
    credit_at(user_id, row, amount, now)
}

/// What the record of a debit that is processed at `now` writes.
pub fn mark_processed_at(
    debit_id: u128,
    order_id: u128,
    user_id: u128,
    amount: u64,
    now: Timestamp,
) -> (write: DebitWrite)
    requires
        now.valid(),
    ensures
        write.user_id@ == id_text(user_id),
        records_debit(write.row, debit_id, order_id, amount, now),
{
    DebitWrite {
        user_id: format_id(user_id),
        row: DebitRow {
            debit_id: format_id(debit_id),
            order_id: format_id(order_id),
            amount: to_column(amount),
            created_at: format_rfc3339(now),
        },
    }
}

/// What the record of a debit that is processed now writes.
pub fn mark_processed(debit_id: u128, order_id: u128, user_id: u128, amount: u64) -> (write:
    DebitWrite)
    ensures
        write.user_id@ == id_text(user_id),
        exists|now: Timestamp| #[trigger]
            is_clock_reading(now) && now.on_clock() && records_debit(
                write.row,
                debit_id,
                order_id,
                amount,
                now,
            ),
{
    let now = utc_now();
    mark_processed_at(debit_id, order_id, user_id, amount, now)
}

/// The key under which the tables know an identifier.
pub fn key(id: u128) -> (text: String)
    ensures
        text@ == id_text(id),
{
    format_id(id)
}

/// What taking an amount from an account gives: less by that amount, where there is an account
/// and it suffices, and nothing elsewhere.
pub proof fn law_try_debit(row: Option<i64>, amount: u64, r: Option<i64>)
    requires
        call_ensures(try_debit, (row, amount), r),
    ensures
        r is Some <==> row is Some && row->0 as int % 0x1_0000_0000_0000_0000 >= amount,
        r matches Some(column) ==> column as int % 0x1_0000_0000_0000_0000 == row->0 as int
            % 0x1_0000_0000_0000_0000 - amount,
{
    law_debit_lowers(row, amount);
    law_debit_lowers(r, 0);
}

/// What a credit writes: a balance more by its amount, and a row with the amount and the instant
/// as it is written. It is refused exactly where no amount is that large.
pub proof fn law_credit_writes(
    user_id: u128,
    row: Option<i64>,
    amount: u64,
    now: Timestamp,
    r: Result<CreditWrite, BalanceOverflow>,
)
    requires
        call_ensures(credit_at, (user_id, row, amount, now), r),
    ensures
        ({
            let balance = match row {
                Some(column) => column as int % 0x1_0000_0000_0000_0000,
                None => 0,
            };
            match r {
                Ok(write) => {
                    &&& write.user_id@ == id_text(user_id)
                    &&& write.balance as int % 0x1_0000_0000_0000_0000 == balance + amount
                    &&& write.row.amount as int % 0x1_0000_0000_0000_0000 == amount
                    &&& write.row.created_at@ == rfc3339_text(now)
                },
                Err(_) => balance + amount >= 0x1_0000_0000_0000_0000,
            }
        }),
{
    law_credit_raises(row, amount);
    law_debit_lowers(row, 0);
    law_column_is_the_amount(amount, 0);
    if let Ok(write) = r {
        law_debit_lowers(Some(write.balance), 0);
    }
}

/// What the record of a debit writes: its ids, its user and its amount as they are, and the
/// instant as it is written.
pub proof fn law_record_writes(
    debit_id: u128,
    order_id: u128,
    user_id: u128,
    amount: u64,
    now: Timestamp,
    write: DebitWrite,
)
    requires
        call_ensures(mark_processed_at, (debit_id, order_id, user_id, amount, now), write),
    ensures
        write.user_id@ == id_text(user_id),
        write.row.debit_id@ == id_text(debit_id),
        write.row.order_id@ == id_text(order_id),
        write.row.amount as int % 0x1_0000_0000_0000_0000 == amount,
        write.row.created_at@ == rfc3339_text(now),
{
    law_column_is_the_amount(amount, 0);
}

/// What is read for a balance: that of the account, and nothing where there is none.
pub proof fn law_balance(row: Option<i64>, r: u64)
    requires
        call_ensures(balance, (row,), r),
    ensures
        row is None ==> r == 0,
        row matches Some(column) ==> r == column as int % 0x1_0000_0000_0000_0000,
{
    law_debit_lowers(row, 0);
}

} // verus!
