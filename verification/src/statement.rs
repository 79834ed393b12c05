//! Statements: the balance-affecting history of one user, newest first.

use crate::ids::{parse_id, parsed_id};
use crate::models::LedgerEntry;
use crate::repository::{amount_in, from_column, CreditRow, DebitRow};
use crate::seqs::lemma_filter_next;
use crate::text::{is_text_before, text_before};
use crate::time::{format_rfc3339, parse_rfc3339, rfc3339_instant, rfc3339_text, Timestamp};
use vstd::prelude::*;

verus! {

/// A row whose text does not say what its column is for.
#[derive(Clone, Copy, Debug, PartialEq, Eq, Structural)]
pub enum RowError {
    DebitId,
    OrderId,
    Timestamp,
}

/// The entry that a row of credits stands for.
pub open spec fn credit_entry(row: CreditRow) -> Result<LedgerEntry, RowError> {
    match rfc3339_instant(row.created_at@) {
        Some(at) => Ok(LedgerEntry::Credit { amount: amount_in(row.amount), at }),
        None => Err(RowError::Timestamp),
    }
}

/// The entry that a row of processed debits stands for.
pub open spec fn debit_entry(row: DebitRow) -> Result<LedgerEntry, RowError> {
    match (
        parsed_id(row.debit_id@),
        parsed_id(row.order_id@),
        rfc3339_instant(row.created_at@),
    ) {
        (None, _, _) => Err(RowError::DebitId),
        (_, None, _) => Err(RowError::OrderId),
        (_, _, None) => Err(RowError::Timestamp),
        (Some(debit_id), Some(order_id), Some(at)) => Ok(
            LedgerEntry::Debit { debit_id, order_id, amount: amount_in(row.amount), at },
        ),
    }
}

/// From a row of credits to what it stands for.
pub open spec fn as_credit() -> spec_fn(CreditRow) -> Result<LedgerEntry, RowError> {
    |row: CreditRow| credit_entry(row)
}

/// From a row of processed debits to what it stands for.
pub open spec fn as_debit() -> spec_fn(DebitRow) -> Result<LedgerEntry, RowError> {
    |row: DebitRow| debit_entry(row)
}

/// `entries` with what `rows` stand for added at the end, or the error of the first row that
/// stands for nothing.
pub open spec fn with_rows<R>(
    entries: Seq<LedgerEntry>,
    rows: Seq<R>,
    entry: spec_fn(R) -> Result<LedgerEntry, RowError>,
) -> Result<Seq<LedgerEntry>, RowError>
    decreases rows.len(),
{
    if rows.len() == 0 {
        Ok(entries)
    } else {
        match with_rows(entries, rows.drop_last(), entry) {
            Ok(before) => match entry(rows.last()) {
                Ok(last) => Ok(before.push(last)),
                Err(e) => Err(e),
            },
            Err(e) => Err(e),
        }
    }
}

/// What the rows of one user stand for, credits first, or the error of the first row that
/// stands for nothing.
pub open spec fn history(credits: Seq<CreditRow>, debits: Seq<DebitRow>) -> Result<
    Seq<LedgerEntry>,
    RowError,
> {
    match with_rows(Seq::empty(), credits, as_credit()) {
        Ok(entries) => with_rows(entries, debits, as_debit()),
        Err(e) => Err(e),
    }
}

/// Whether a row stamped `created_at` is looked at for a statement from `since` on: whether its
/// time is at or after `since`, or, where it cannot be read, its text does not sort before that
/// of `since`.
pub open spec fn is_from(created_at: Seq<char>, since: Timestamp) -> bool {
    match rfc3339_instant(created_at) {
        Some(at) => !at.before(since),
        None => !text_before(created_at, rfc3339_text(since)),
    }
}

/// The rows of credits for a statement from `since` on.
pub open spec fn credits_from(since: Timestamp) -> spec_fn(CreditRow) -> bool {
    |row: CreditRow| is_from(row.created_at@, since)
}

/// The rows of processed debits for a statement from `since` on.
pub open spec fn debits_from(since: Timestamp) -> spec_fn(DebitRow) -> bool {
    |row: DebitRow| is_from(row.created_at@, since)
}

/// What the rows of one user from `since` on stand for.
pub open spec fn history_from(
    credits: Seq<CreditRow>,
    debits: Seq<DebitRow>,
    since: Timestamp,
) -> Result<Seq<LedgerEntry>, RowError> {
    history(credits.filter(credits_from(since)), debits.filter(debits_from(since)))
}

/// The entries booked at `at`.
pub open spec fn booked_at(at: Timestamp) -> spec_fn(LedgerEntry) -> bool {
    |entry: LedgerEntry| entry.instant() == at
}

/// No entry of `entries` is older than one that follows it.
pub open spec fn descending(entries: Seq<LedgerEntry>) -> bool {
    forall|i: int, j: int|
        0 <= i < j < entries.len() ==> !(#[trigger] entries[i]).instant().before(
            (#[trigger] entries[j]).instant(),
        )
}

/// `out` is `entries` sorted newest first, those of one instant left in their order.
pub open spec fn newest_first(entries: Seq<LedgerEntry>, out: Seq<LedgerEntry>) -> bool {
    &&& descending(out)
    &&& forall|at: Timestamp| #[trigger]
        out.filter(booked_at(at)) == entries.filter(booked_at(at))
}

/// Reads one row of credits.
fn read_credit(row: &CreditRow) -> (r: Result<LedgerEntry, RowError>)
    ensures
        r == credit_entry(*row),
{
    match parse_rfc3339(row.created_at.as_str()) {
        Ok(at) => Ok(LedgerEntry::Credit { amount: from_column(row.amount), at }),
        Err(_) => Err(RowError::Timestamp),
    }
}

/// Reads one row of processed debits.
fn read_debit(row: &DebitRow) -> (r: Result<LedgerEntry, RowError>)
    ensures
        r == debit_entry(*row),
{
    let debit_id: u128 = match parse_id(row.debit_id.as_str()) {
        Ok(id) => id,
        Err(_) => return Err(RowError::DebitId),
    };
    let order_id: u128 = match parse_id(row.order_id.as_str()) {
        Ok(id) => id,
        Err(_) => return Err(RowError::OrderId),
    };
    match parse_rfc3339(row.created_at.as_str()) {
        Ok(at) => Ok(
            LedgerEntry::Debit { debit_id, order_id, amount: from_column(row.amount), at },
        ),
        Err(_) => Err(RowError::Timestamp),
    }
}

/// Merges two sorted lists, entries of one instant from `left` before those from `right`.
fn merge(left: &Vec<LedgerEntry>, right: &Vec<LedgerEntry>) -> (out: Vec<LedgerEntry>)
    requires
        descending(left@),
        descending(right@),
    ensures
        descending(out@),
        forall|at: Timestamp| #[trigger]
            out@.filter(booked_at(at)) == left@.filter(booked_at(at)) + right@.filter(
                booked_at(at),
            ),
{
    let mut out: Vec<LedgerEntry> = Vec::new();
    let mut i: usize = 0;
    let mut j: usize = 0;
    proof {
        assert forall|at: Timestamp| #[trigger] out@.filter(booked_at(at)) == left@.take(0).filter(
            booked_at(at),
        ) + right@.take(0).filter(booked_at(at)) by {
            reveal(Seq::filter);
        }
    }
    while i < left.len() || j < right.len()
        invariant
            descending(left@),
            descending(right@),
            descending(out@),
            i <= left@.len(),
            j <= right@.len(),
            forall|at: Timestamp| #[trigger]
                out@.filter(booked_at(at)) == left@.take(i as int).filter(booked_at(at))
                    + right@.take(j as int).filter(booked_at(at)),
            forall|k: int, a: int|
                0 <= k < out@.len() && i <= a < left@.len() ==> !(
                #[trigger] out@[k]).instant().before((#[trigger] left@[a]).instant()),
            forall|k: int, b: int|
                0 <= k < out@.len() && j <= b < right@.len() ==> !(
                #[trigger] out@[k]).instant().before((#[trigger] right@[b]).instant()),
            forall|a: int, b: int|
                i <= a < left@.len() && 0 <= b < j ==> (
                #[trigger] left@[a]).instant().before((#[trigger] right@[b]).instant()),
        decreases left@.len() - i + right@.len() - j,
    {
        let from_left = if i == left.len() {
            false
        } else if j == right.len() {
            true
        } else {
            !left[i].at().is_before(&right[j].at())
        };
        let ghost before = out@;
        if from_left {
            proof {
                lemma_merge_left(left@, right@, i as int, j as int, before);
            }
            out.push(left[i]);
            i += 1;
        } else {
            proof {
                lemma_merge_right(left@, right@, i as int, j as int, before);
            }
            out.push(right[j]);
            j += 1;
        }
    }
    assert(left@.take(i as int) =~= left@);
    assert(right@.take(j as int) =~= right@);
    out
}

/// A step of the merge that takes the next entry of `left`.
proof fn lemma_merge_left(
    left: Seq<LedgerEntry>,
    right: Seq<LedgerEntry>,
    i: int,
    j: int,
    out: Seq<LedgerEntry>,
)
    requires
        0 <= i < left.len(),
        0 <= j <= right.len(),
        forall|at: Timestamp| #[trigger]
            out.filter(booked_at(at)) == left.take(i).filter(booked_at(at)) + right.take(j).filter(
                booked_at(at),
            ),
        forall|b: int| 0 <= b < j ==> left[i].instant().before((#[trigger] right[b]).instant()),
    ensures
        forall|at: Timestamp| #[trigger]
            out.push(left[i]).filter(booked_at(at)) == left.take(i + 1).filter(booked_at(at))
                + right.take(j).filter(booked_at(at)),
{
    assert forall|at: Timestamp| #[trigger]
        out.push(left[i]).filter(booked_at(at)) == left.take(i + 1).filter(booked_at(at))
            + right.take(j).filter(booked_at(at)) by {
        let keep = booked_at(at);
        out.lemma_filter_push(left[i], keep);
        left.take(i).lemma_filter_push(left[i], keep);
        assert(left.take(i + 1) =~= left.take(i).push(left[i]));
        assert(out.filter(keep) == left.take(i).filter(keep) + right.take(j).filter(keep));
        if keep(left[i]) {
            assert forall|b: int| 0 <= b < right.take(j).len() implies !keep(
                #[trigger] right.take(j)[b],
            ) by {
                assert(right.take(j)[b] == right[b]);
            }
            right.take(j).lemma_all_neg_filter_empty(keep);
            assert(right.take(j).filter(keep) =~= Seq::empty());
        }
    }
}

/// A step of the merge that takes the next entry of `right`.
proof fn lemma_merge_right(
    left: Seq<LedgerEntry>,
    right: Seq<LedgerEntry>,
    i: int,
    j: int,
    out: Seq<LedgerEntry>,
)
    requires
        0 <= i <= left.len(),
        0 <= j < right.len(),
        forall|at: Timestamp| #[trigger]
            out.filter(booked_at(at)) == left.take(i).filter(booked_at(at)) + right.take(j).filter(
                booked_at(at),
            ),
    ensures
        forall|at: Timestamp| #[trigger]
            out.push(right[j]).filter(booked_at(at)) == left.take(i).filter(booked_at(at))
                + right.take(j + 1).filter(booked_at(at)),
{
    assert forall|at: Timestamp| #[trigger]
        out.push(right[j]).filter(booked_at(at)) == left.take(i).filter(booked_at(at))
            + right.take(j + 1).filter(booked_at(at)) by {
        let keep = booked_at(at);
        out.lemma_filter_push(right[j], keep);
        right.take(j).lemma_filter_push(right[j], keep);
        assert(right.take(j + 1) =~= right.take(j).push(right[j]));
        assert(out.filter(keep) == left.take(i).filter(keep) + right.take(j).filter(keep));
    }
}

/// Sorts entries newest first, and leaves those of one instant in their order.
pub fn sort_newest_first(entries: Vec<LedgerEntry>) -> (out: Vec<LedgerEntry>)
    ensures
        newest_first(entries@, out@),
    decreases entries@.len(),
{
    if entries.len() <= 1 {
        return entries;
    }
    let middle: usize = entries.len() / 2;
    let mut left = entries;
    let ghost whole = left@;
    let right = left.split_off(middle);
    assert(whole =~= left@ + right@);
    let ghost (l, r) = (left@, right@);
    let left = sort_newest_first(left);
    let right = sort_newest_first(right);
    let out = merge(&left, &right);
    assert forall|at: Timestamp| #[trigger]
        out@.filter(booked_at(at)) == whole.filter(booked_at(at)) by {
        Seq::filter_distributes_over_add(l, r, booked_at(at));
        assert(left@.filter(booked_at(at)) == l.filter(booked_at(at)));
        assert(right@.filter(booked_at(at)) == r.filter(booked_at(at)));
    }
    out
}

/// Whether a row stamped `created_at` is looked at for a statement from `since` on, which reads
/// `since_text`.
fn is_recent(created_at: &str, since: &Timestamp, since_text: &str) -> (r: bool)
    requires
        since_text@ == rfc3339_text(*since),
    ensures
        r == is_from(created_at@, *since),
{
    match parse_rfc3339(created_at) {
        Ok(at) => !at.is_before(since),
        Err(_) => !is_text_before(created_at, since_text),
    }
}

/// The statement of a user from `since` on, out of all the user's rows: the credits and the
/// settled debits booked at or after `since`, newest first. A row from before `since` is passed
/// over, whatever else it holds.
pub fn statement(credits: &Vec<CreditRow>, debits: &Vec<DebitRow>, since: Timestamp) -> (r: Result<
    Vec<LedgerEntry>,
    RowError,
>)
    requires
        since.valid(),
    ensures
        match (history_from(credits@, debits@, since), r) {
            (Ok(entries), Ok(out)) => newest_first(entries, out@),
            (Err(expected), Err(e)) => e == expected,
            _ => false,
        },
{
    let since_text = format_rfc3339(since);
    let ghost recent_credits = credits@.filter(credits_from(since));
    let ghost recent_debits = debits@.filter(debits_from(since));
    let mut entries: Vec<LedgerEntry> = Vec::new();
    proof {
        reveal(Seq::filter);
        assert(credits@.take(0).filter(credits_from(since)) =~= Seq::empty());
        assert(debits@.take(0).filter(debits_from(since)) =~= Seq::empty());
    }
    for i in 0..credits.len()
        invariant
            since_text@ == rfc3339_text(since),
            recent_credits == credits@.filter(credits_from(since)),
            with_rows(
                Seq::empty(),
                credits@.take(i as int).filter(credits_from(since)),
                as_credit(),
            ) == Ok::<_, RowError>(entries@),
    {
        proof {
            lemma_filter_next(credits@, credits_from(since), i as int);
        }
        if is_recent(credits[i].created_at.as_str(), &since, since_text.as_str()) {
            match read_credit(&credits[i]) {
                Ok(entry) => {
                    entries.push(entry);
                },
                Err(e) => {
                    proof {
                        let read = credits@.take(i + 1).filter(credits_from(since));
                        lemma_error_stands(
                            Seq::empty(),
                            recent_credits,
                            as_credit(),
                            read.len() as int,
                            e,
                        );
                    }
                    return Err(e);
                },
            }
        }
    }
    assert(credits@.take(credits@.len() as int) =~= credits@);
    let ghost booked = entries@;
    for i in 0..debits.len()
        invariant
            since_text@ == rfc3339_text(since),
            recent_debits == debits@.filter(debits_from(since)),
            with_rows(
                booked,
                debits@.take(i as int).filter(debits_from(since)),
                as_debit(),
            ) == Ok::<_, RowError>(entries@),
            history_from(credits@, debits@, since) == with_rows(booked, recent_debits, as_debit()),
    {
        proof {
            lemma_filter_next(debits@, debits_from(since), i as int);
        }
        if is_recent(debits[i].created_at.as_str(), &since, since_text.as_str()) {
            match read_debit(&debits[i]) {
                Ok(entry) => {
                    entries.push(entry);
                },
                Err(e) => {
                    proof {
                        let read = debits@.take(i + 1).filter(debits_from(since));
                        lemma_error_stands(
                            booked,
                            recent_debits,
                            as_debit(),
                            read.len() as int,
                            e,
                        );
                    }
                    return Err(e);
                },
            }
        }
    }
    assert(debits@.take(debits@.len() as int) =~= debits@);
    Ok(sort_newest_first(entries))
}

/// The error of an early row is the error of the whole.
proof fn lemma_error_stands<R>(
    entries: Seq<LedgerEntry>,
    rows: Seq<R>,
    entry: spec_fn(R) -> Result<LedgerEntry, RowError>,
    n: int,
    e: RowError,
)
    requires
        0 <= n <= rows.len(),
        with_rows(entries, rows.take(n), entry) == Err::<Seq<LedgerEntry>, RowError>(e),
    ensures
        with_rows(entries, rows, entry) == Err::<Seq<LedgerEntry>, RowError>(e),
    decreases rows.len() - n,
{
    if n < rows.len() {
        assert(rows.take(n + 1).drop_last() =~= rows.take(n));
        lemma_error_stands(entries, rows, entry, n + 1, e);
    } else {
        assert(rows.take(n) =~= rows);
    }
}

} // verus!
