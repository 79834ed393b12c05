//! What holds of statements.

use crate::ids::parsed_id;
use crate::ledger::{balance_of, received, spent, Books, Credit, Processed};
use crate::models::LedgerEntry;
use crate::repository::{
    amount_in, law_column_is_the_amount, records_credit, records_debit, CreditRow, DebitRow,
};
use crate::seqs::{lemma_filter_all, lemma_filter_holds, lemma_filter_next};
use crate::statement::{
    as_credit, as_debit, booked_at, credit_entry, credits_from, debit_entry, debits_from,
    descending, history_from, is_from, newest_first, statement, with_rows, RowError,
};
use crate::text::text_before;
use crate::time::{rfc3339_instant, rfc3339_text, Timestamp};
use vstd::prelude::*;

verus! {

/// A statement shows a credit as it was booked, in the four-digit years.
pub proof fn law_credit_row_reads_back(row: CreditRow, amount: u64, now: Timestamp)
    requires
        records_credit(row, amount, now),
        now.in_four_digit_year(),
    ensures
        credit_entry(row) == Ok::<_, RowError>(LedgerEntry::Credit { amount, at: now }),
{
}

/// A statement shows a debit as it was put on record, in the four-digit years.
pub proof fn law_debit_row_reads_back(
    row: DebitRow,
    debit_id: u128,
    order_id: u128,
    amount: u64,
    now: Timestamp,
)
    requires
        records_debit(row, debit_id, order_id, amount, now),
        now.in_four_digit_year(),
    ensures
        debit_entry(row) == Ok::<_, RowError>(
            LedgerEntry::Debit { debit_id, order_id, amount, at: now },
        ),
{
}

/// A sorted list begins with an entry of the latest instant.
proof fn lemma_first_is_newest(entries: Seq<LedgerEntry>, out: Seq<LedgerEntry>, entry: LedgerEntry)
    requires
        newest_first(entries, out),
        entries.contains(entry),
    ensures
        out.len() > 0,
        !out[0].instant().before(entry.instant()),
        out.contains(entry),
{
    let at = entry.instant();
    lemma_filter_holds(entries, booked_at(at), entry);
    assert(out.filter(booked_at(at)) == entries.filter(booked_at(at)));
    lemma_filter_holds(out, booked_at(at), entry);
    let i = choose|i: int| 0 <= i < out.len() && out[i] == entry;
    assert(!out[0].instant().before(out[i].instant()));
}

/// The order of a statement is fixed: there is one way to sort entries newest first.
pub proof fn law_order_is_fixed(
    entries: Seq<LedgerEntry>,
    a: Seq<LedgerEntry>,
    b: Seq<LedgerEntry>,
)
    requires
        newest_first(entries, a),
        newest_first(entries, b),
    ensures
        a == b,
{
    lemma_same_order(a, b);
}

/// Two sorted lists with the same entries at every instant are the same.
proof fn lemma_same_order(a: Seq<LedgerEntry>, b: Seq<LedgerEntry>)
    requires
        descending(a),
        descending(b),
        forall|at: Timestamp| #[trigger] a.filter(booked_at(at)) == b.filter(booked_at(at)),
    ensures
        a == b,
    decreases a.len(),
{
    if a.len() == 0 {
        if b.len() > 0 {
            lemma_first_is_newest(b, a, b[0]);
        }
        assert(a =~= b);
    } else {
        lemma_first_is_newest(a, b, a[0]);
        lemma_first_is_newest(b, a, b[0]);
        let at = a[0].instant();
        assert(b[0].instant() == at);
        let rest_a = a.skip(1);
        let rest_b = b.skip(1);
        assert(a =~= seq![a[0]] + rest_a);
        assert(b =~= seq![b[0]] + rest_b);
        assert forall|t: Timestamp| #[trigger]
            rest_a.filter(booked_at(t)) == rest_b.filter(booked_at(t)) by {
            Seq::filter_distributes_over_add(seq![a[0]], rest_a, booked_at(t));
            Seq::filter_distributes_over_add(seq![b[0]], rest_b, booked_at(t));
            lemma_filter_one(a[0], booked_at(t));
            lemma_filter_one(b[0], booked_at(t));
            let whole = a.filter(booked_at(t));
            assert(whole == b.filter(booked_at(t)));
            if t == at {
                assert(rest_a.filter(booked_at(t)) =~= whole.skip(1));
                assert(rest_b.filter(booked_at(t)) =~= whole.skip(1));
            } else {
                assert(rest_a.filter(booked_at(t)) =~= whole);
                assert(rest_b.filter(booked_at(t)) =~= whole);
            }
        }
        assert forall|i: int, j: int| 0 <= i < j < rest_a.len() implies !(
        #[trigger] rest_a[i]).instant().before((#[trigger] rest_a[j]).instant()) by {
            assert(rest_a[i] == a[i + 1] && rest_a[j] == a[j + 1]);
        }
        assert forall|i: int, j: int| 0 <= i < j < rest_b.len() implies !(
        #[trigger] rest_b[i]).instant().before((#[trigger] rest_b[j]).instant()) by {
            assert(rest_b[i] == b[i + 1] && rest_b[j] == b[j + 1]);
        }
        lemma_same_order(rest_a, rest_b);
        Seq::filter_distributes_over_add(seq![a[0]], rest_a, booked_at(at));
        Seq::filter_distributes_over_add(seq![b[0]], rest_b, booked_at(at));
        lemma_filter_one(a[0], booked_at(at));
        lemma_filter_one(b[0], booked_at(at));
        assert(a.filter(booked_at(at))[0] == a[0]);
        assert(b.filter(booked_at(at))[0] == b[0]);
    }
}

/// What a filter makes of one entry.
proof fn lemma_filter_one(entry: LedgerEntry, keep: spec_fn(LedgerEntry) -> bool)
    ensures
        seq![entry].filter(keep) == if keep(entry) {
            seq![entry]
        } else {
            Seq::empty()
        },
{
    reveal(Seq::filter);
    assert(seq![entry].drop_last() =~= Seq::empty());
    assert(seq![entry].drop_last().filter(keep) =~= Seq::empty());
    if keep(entry) {
        assert(seq![entry].filter(keep) =~= seq![entry]);
    }
}

/// Two filters one after the other keep what both keep.
proof fn lemma_filter_twice(
    entries: Seq<LedgerEntry>,
    first: spec_fn(LedgerEntry) -> bool,
    second: spec_fn(LedgerEntry) -> bool,
    both: spec_fn(LedgerEntry) -> bool,
)
    requires
        forall|entry: LedgerEntry| #[trigger] both(entry) <==> first(entry) && second(entry),
    ensures
        entries.filter(first).filter(second) == entries.filter(both),
    decreases entries.len(),
{
    reveal(Seq::filter);
    if entries.len() > 0 {
        let rest = entries.drop_last();
        lemma_filter_twice(rest, first, second, both);
        assert(both(entries.last()) <==> first(entries.last()) && second(entries.last()));
        if first(entries.last()) {
            rest.filter(first).lemma_filter_push(entries.last(), second);
        }
    } else {
        assert(entries.filter(first).filter(second) =~= entries.filter(both));
    }
}

/// A filter leaves sorted entries sorted.
proof fn lemma_filter_descends(entries: Seq<LedgerEntry>, keep: spec_fn(LedgerEntry) -> bool)
    requires
        descending(entries),
    ensures
        descending(entries.filter(keep)),
    decreases entries.len(),
{
    reveal(Seq::filter);
    if entries.len() > 0 {
        let rest = entries.drop_last();
        assert(descending(rest)) by {
            assert forall|i: int, j: int| 0 <= i < j < rest.len() implies !(
            #[trigger] rest[i]).instant().before((#[trigger] rest[j]).instant()) by {
                assert(rest[i] == entries[i] && rest[j] == entries[j]);
            }
        }
        lemma_filter_descends(rest, keep);
        let kept = rest.filter(keep);
        let out = entries.filter(keep);
        assert forall|i: int, j: int| 0 <= i < j < out.len() implies !(
        #[trigger] out[i]).instant().before((#[trigger] out[j]).instant()) by {
            assert(out[i] == kept[i]);
            if j < kept.len() {
                assert(out[j] == kept[j]);
            } else {
                assert(kept.contains(kept[i]));
                lemma_filter_holds(rest, keep, kept[i]);
                let k = choose|k: int| 0 <= k < rest.len() && rest[k] == kept[i];
                assert(entries[k] == kept[i]);
                assert(out[j] == entries[entries.len() - 1]);
            }
        }
    }
}

/// What an entry adds to the balance.
pub open spec fn change(entry: LedgerEntry) -> int {
    match entry {
        LedgerEntry::Credit { amount, .. } => amount as int,
        LedgerEntry::Debit { amount, .. } => -(amount as int),
    }
}

/// What entries add to the balance together.
pub open spec fn net(entries: Seq<LedgerEntry>) -> int
    decreases entries.len(),
{
    if entries.len() == 0 {
        0
    } else {
        net(entries.drop_last()) + change(entries.last())
    }
}

/// What a filter leaves and what it strikes add up to the whole.
proof fn lemma_net_split(
    entries: Seq<LedgerEntry>,
    keep: spec_fn(LedgerEntry) -> bool,
    strike: spec_fn(LedgerEntry) -> bool,
)
    requires
        forall|entry: LedgerEntry| #[trigger] strike(entry) <==> !keep(entry),
    ensures
        net(entries) == net(entries.filter(keep)) + net(entries.filter(strike)),
        entries.len() == entries.filter(keep).len() + entries.filter(strike).len(),
    decreases entries.len(),
{
    reveal(Seq::filter);
    if entries.len() > 0 {
        let rest = entries.drop_last();
        lemma_net_split(rest, keep, strike);
        assert(strike(entries.last()) <==> !keep(entries.last()));
        let kept = rest.filter(keep);
        let struck = rest.filter(strike);
        assert(kept.push(entries.last()).drop_last() =~= kept);
        assert(struck.push(entries.last()).drop_last() =~= struck);
    }
}

/// Lists with the same entries at every instant add the same to the balance.
proof fn lemma_net_same(a: Seq<LedgerEntry>, b: Seq<LedgerEntry>)
    requires
        forall|at: Timestamp| #[trigger] a.filter(booked_at(at)) == b.filter(booked_at(at)),
    ensures
        net(a) == net(b),
    decreases a.len(),
{
    if a.len() == 0 {
        if b.len() > 0 {
            let at = b[0].instant();
            lemma_filter_holds(b, booked_at(at), b[0]);
            assert(b.contains(b[0]));
            assert(a.filter(booked_at(at)) == b.filter(booked_at(at)));
            lemma_filter_holds(a, booked_at(at), b[0]);
        }
    } else {
        let at = a[0].instant();
        let keep = booked_at(at);
        let strike = |entry: LedgerEntry| !keep(entry);
        assert(a.filter(keep) == b.filter(keep));
        lemma_net_split(a, keep, strike);
        lemma_net_split(b, keep, strike);
        assert(a.contains(a[0]));
        lemma_filter_holds(a, keep, a[0]);
        assert forall|t: Timestamp| #[trigger]
            a.filter(strike).filter(booked_at(t)) == b.filter(strike).filter(booked_at(t)) by {
            let both = |entry: LedgerEntry| strike(entry) && booked_at(t)(entry);
            lemma_filter_twice(a, strike, booked_at(t), both);
            lemma_filter_twice(a, booked_at(t), strike, both);
            lemma_filter_twice(b, strike, booked_at(t), both);
            lemma_filter_twice(b, booked_at(t), strike, both);
            assert(a.filter(booked_at(t)) == b.filter(booked_at(t)));
        }
        lemma_net_same(a.filter(strike), b.filter(strike));
    }
}

/// `rows` are the rows of `user_id` in the table that holds `credits`.
pub open spec fn credit_rows_of(rows: Seq<CreditRow>, credits: Seq<Credit>, user_id: u128) -> bool
    decreases credits.len(),
{
    if credits.len() == 0 {
        rows.len() == 0
    } else if credits.last().user_id == user_id {
        &&& rows.len() > 0
        &&& amount_in(rows.last().amount) == credits.last().amount
        &&& credit_rows_of(rows.drop_last(), credits.drop_last(), user_id)
    } else {
        credit_rows_of(rows, credits.drop_last(), user_id)
    }
}

/// `rows` are the rows of `user_id` in the table that holds `processed`.
pub open spec fn debit_rows_of(
    rows: Seq<DebitRow>,
    processed: Seq<Processed>,
    user_id: u128,
) -> bool
    decreases processed.len(),
{
    if processed.len() == 0 {
        rows.len() == 0
    } else if processed.last().user_id == user_id {
        &&& rows.len() > 0
        &&& amount_in(rows.last().amount) == processed.last().amount
        &&& debit_rows_of(rows.drop_last(), processed.drop_last(), user_id)
    } else {
        debit_rows_of(rows, processed.drop_last(), user_id)
    }
}

/// What the rows of a user's credits add to the balance.
proof fn lemma_credit_rows_add_up(
    rows: Seq<CreditRow>,
    credits: Seq<Credit>,
    user_id: u128,
    entries: Seq<LedgerEntry>,
)
    requires
        credit_rows_of(rows, credits, user_id),
        with_rows(Seq::empty(), rows, as_credit()) == Ok::<_, RowError>(entries),
    ensures
        net(entries) == received(credits, user_id),
    decreases credits.len(),
{
    if credits.len() > 0 {
        if credits.last().user_id == user_id {
            let before = with_rows(Seq::empty(), rows.drop_last(), as_credit())->Ok_0;
            lemma_credit_rows_add_up(rows.drop_last(), credits.drop_last(), user_id, before);
            assert(entries.drop_last() =~= before);
        } else {
            lemma_credit_rows_add_up(rows, credits.drop_last(), user_id, entries);
        }
    }
}

/// What the rows of a user's processed debits take from the balance.
proof fn lemma_debit_rows_add_up(
    start: Seq<LedgerEntry>,
    rows: Seq<DebitRow>,
    processed: Seq<Processed>,
    user_id: u128,
    entries: Seq<LedgerEntry>,
)
    requires
        debit_rows_of(rows, processed, user_id),
        with_rows(start, rows, as_debit()) == Ok::<_, RowError>(entries),
    ensures
        net(entries) == net(start) - spent(processed, user_id),
    decreases processed.len(),
{
    if processed.len() > 0 {
        if processed.last().user_id == user_id {
            let before = with_rows(start, rows.drop_last(), as_debit())->Ok_0;
            lemma_debit_rows_add_up(
                start,
                rows.drop_last(),
                processed.drop_last(),
                user_id,
                before,
            );
            assert(entries.drop_last() =~= before);
        } else {
            lemma_debit_rows_add_up(start, rows, processed.drop_last(), user_id, entries);
        }
    }
}

/// Sorting does not change what entries add to the balance.
pub proof fn law_sorting_keeps_sum(entries: Seq<LedgerEntry>, out: Seq<LedgerEntry>)
    requires
        newest_first(entries, out),
    ensures
        net(out) == net(entries),
{
    lemma_net_same(entries, out);
}

/// A statement from the first booking on adds up to the balance, where the books balance.
pub proof fn law_statement_explains_balance(
    books: Books,
    user_id: u128,
    credits: Seq<CreditRow>,
    debits: Seq<DebitRow>,
    since: Timestamp,
    entries: Seq<LedgerEntry>,
    out: Seq<LedgerEntry>,
)
    requires
        received(books.credits, user_id) == balance_of(books, user_id) + spent(
            books.processed,
            user_id,
        ),
        credit_rows_of(credits, books.credits, user_id),
        debit_rows_of(debits, books.processed, user_id),
        forall|i: int|
            0 <= i < credits.len() ==> is_from((#[trigger] credits[i]).created_at@, since),
        forall|i: int|
            0 <= i < debits.len() ==> is_from((#[trigger] debits[i]).created_at@, since),
        history_from(credits, debits, since) == Ok::<_, RowError>(entries),
        newest_first(entries, out),
    ensures
        net(out) == balance_of(books, user_id),
{
    lemma_filter_all(credits, credits_from(since));
    lemma_filter_all(debits, debits_from(since));
    let booked = with_rows(Seq::empty(), credits, as_credit())->Ok_0;
    lemma_credit_rows_add_up(credits, books.credits, user_id, booked);
    lemma_debit_rows_add_up(booked, debits, books.processed, user_id, entries);
    law_sorting_keeps_sum(entries, out);
}

/// How often an entry occurs shows among those that a filter keeps along with it.
proof fn lemma_filter_counts(
    entries: Seq<LedgerEntry>,
    keep: spec_fn(LedgerEntry) -> bool,
    entry: LedgerEntry,
)
    requires
        keep(entry),
    ensures
        entries.filter(keep).to_multiset().count(entry) == entries.to_multiset().count(entry),
    decreases entries.len(),
{
    reveal(Seq::filter);
    if entries.len() > 0 {
        let rest = entries.drop_last();
        lemma_filter_counts(rest, keep, entry);
        assert(entries =~= rest.push(entries.last()));
        rest.to_multiset_ensures();
        rest.filter(keep).to_multiset_ensures();
    } else {
        assert(entries.filter(keep) =~= entries);
    }
}

/// Sorting neither adds an entry nor loses one.
pub proof fn law_sorting_keeps_entries(entries: Seq<LedgerEntry>, out: Seq<LedgerEntry>)
    requires
        newest_first(entries, out),
    ensures
        out.to_multiset() == entries.to_multiset(),
{
    assert forall|entry: LedgerEntry| #[trigger]
        out.to_multiset().count(entry) == entries.to_multiset().count(entry) by {
        let keep = booked_at(entry.instant());
        lemma_filter_counts(out, keep, entry);
        lemma_filter_counts(entries, keep, entry);
        assert(out.filter(keep) == entries.filter(keep));
    }
    assert(out.to_multiset() =~= entries.to_multiset());
}

/// What rows stand for comes after what was there, row by row.
proof fn lemma_rows_in_order<R>(
    start: Seq<LedgerEntry>,
    rows: Seq<R>,
    entry: spec_fn(R) -> Result<LedgerEntry, RowError>,
    entries: Seq<LedgerEntry>,
)
    requires
        with_rows(start, rows, entry) == Ok::<_, RowError>(entries),
    ensures
        entries.len() == start.len() + rows.len(),
        forall|i: int| 0 <= i < start.len() ==> entries[i] == #[trigger] start[i],
        forall|i: int|
            0 <= i < rows.len() ==> entry(#[trigger] rows[i]) == Ok::<_, RowError>(
                entries[start.len() + i],
            ),
    decreases rows.len(),
{
    if rows.len() > 0 {
        let before = with_rows(start, rows.drop_last(), entry)->Ok_0;
        lemma_rows_in_order(start, rows.drop_last(), entry, before);
        assert forall|i: int| 0 <= i < rows.len() implies entry(#[trigger] rows[i]) == Ok::<
            _,
            RowError,
        >(entries[start.len() + i]) by {
            if i < rows.len() - 1 {
                assert(rows.drop_last()[i] == rows[i]);
            }
        }
    }
}

/// A statement holds one entry for each row of credits and each row of processed debits from
/// `since` on, whatever its amount, and no other.
pub proof fn law_statement_is_exact(
    credits: Seq<CreditRow>,
    debits: Seq<DebitRow>,
    since: Timestamp,
    entries: Seq<LedgerEntry>,
    out: Seq<LedgerEntry>,
)
    requires
        history_from(credits, debits, since) == Ok::<_, RowError>(entries),
        newest_first(entries, out),
    ensures
        out.to_multiset() == entries.to_multiset(),
        ({
            let c = credits.filter(credits_from(since));
            let d = debits.filter(debits_from(since));
            &&& entries.len() == c.len() + d.len()
            &&& forall|i: int|
                0 <= i < c.len() ==> credit_entry(#[trigger] c[i]) == Ok::<_, RowError>(entries[i])
            &&& forall|i: int|
                0 <= i < d.len() ==> debit_entry(#[trigger] d[i]) == Ok::<_, RowError>(
                    entries[c.len() + i],
                )
        }),
{
    let c = credits.filter(credits_from(since));
    let d = debits.filter(debits_from(since));
    let booked = with_rows(Seq::empty(), c, as_credit())->Ok_0;
    lemma_rows_in_order(Seq::empty(), c, as_credit(), booked);
    lemma_rows_in_order(booked, d, as_debit(), entries);
    law_sorting_keeps_entries(entries, out);
    assert forall|i: int| 0 <= i < c.len() implies credit_entry(#[trigger] c[i]) == Ok::<
        _,
        RowError,
    >(entries[i]) by {
        assert(as_credit()(c[i]) == Ok::<_, RowError>(booked[i]));
        assert(entries[i] == booked[i]);
    }
    assert forall|i: int| 0 <= i < d.len() implies debit_entry(#[trigger] d[i]) == Ok::<
        _,
        RowError,
    >(entries[c.len() + i]) by {
        assert(as_debit()(d[i]) == Ok::<_, RowError>(entries[booked.len() + i]));
    }
}

/// A row that can be read and is from `since` on is shown.
pub proof fn law_row_is_shown(
    credits: Seq<CreditRow>,
    debits: Seq<DebitRow>,
    since: Timestamp,
    entries: Seq<LedgerEntry>,
    out: Seq<LedgerEntry>,
    entry: LedgerEntry,
)
    requires
        history_from(credits, debits, since) == Ok::<_, RowError>(entries),
        newest_first(entries, out),
        (exists|i: int|
            0 <= i < credits.len() && credit_entry(#[trigger] credits[i]) == Ok::<_, RowError>(
                entry,
            )) || (exists|i: int|
            0 <= i < debits.len() && debit_entry(#[trigger] debits[i]) == Ok::<_, RowError>(entry)),
        !entry.instant().before(since),
    ensures
        out.contains(entry),
{
    let c = credits.filter(credits_from(since));
    let d = debits.filter(debits_from(since));
    law_statement_is_exact(credits, debits, since, entries, out);
    if exists|i: int|
        0 <= i < credits.len() && credit_entry(#[trigger] credits[i]) == Ok::<_, RowError>(entry) {
        let i = choose|i: int|
            0 <= i < credits.len() && credit_entry(#[trigger] credits[i]) == Ok::<_, RowError>(
                entry,
            );
        lemma_filter_holds(credits, credits_from(since), credits[i]);
        assert(credits.contains(credits[i]));
        let k = choose|k: int| 0 <= k < c.len() && c[k] == credits[i];
        assert(credit_entry(c[k]) == Ok::<_, RowError>(entries[k]));
        assert(entries.contains(entry));
    } else {
        let i = choose|i: int|
            0 <= i < debits.len() && debit_entry(#[trigger] debits[i]) == Ok::<_, RowError>(entry);
        lemma_filter_holds(debits, debits_from(since), debits[i]);
        assert(debits.contains(debits[i]));
        let k = choose|k: int| 0 <= k < d.len() && d[k] == debits[i];
        assert(debit_entry(d[k]) == Ok::<_, RowError>(entries[c.len() + k]));
        assert(entries.contains(entry));
    }
    lemma_first_is_newest(entries, out, entry);
}

/// A debit that is put on record at or after `since`, in the four-digit years, is what the
/// statement gains, with its id, order, amount and time; one from before `since` changes nothing.
pub proof fn law_recorded_debit_is_shown(
    credits: Seq<CreditRow>,
    debits: Seq<DebitRow>,
    since: Timestamp,
    entries: Seq<LedgerEntry>,
    out: Seq<LedgerEntry>,
    row: DebitRow,
    debit_id: u128,
    order_id: u128,
    amount: u64,
    now: Timestamp,
    after: Seq<LedgerEntry>,
)
    requires
        history_from(credits, debits, since) == Ok::<_, RowError>(entries),
        newest_first(entries, out),
        records_debit(row, debit_id, order_id, amount, now),
        now.in_four_digit_year(),
    ensures
        ({
            let entry = LedgerEntry::Debit { debit_id, order_id, amount, at: now };
            let gained = history_from(credits, debits.push(row), since);
            if now.before(since) {
                gained == Ok::<_, RowError>(entries)
            } else {
                &&& gained == Ok::<_, RowError>(entries.push(entry))
                &&& newest_first(entries.push(entry), after) ==> after.to_multiset()
                    == out.to_multiset().insert(entry)
            }
        }),
{
    let entry = LedgerEntry::Debit { debit_id, order_id, amount, at: now };
    law_debit_row_reads_back(row, debit_id, order_id, amount, now);
    let d = debits.filter(debits_from(since));
    debits.lemma_filter_push(row, debits_from(since));
    if !now.before(since) {
        assert(d.push(row).drop_last() =~= d);
        if newest_first(entries.push(entry), after) {
            law_sorting_keeps_entries(entries, out);
            law_sorting_keeps_entries(entries.push(entry), after);
            entries.to_multiset_ensures();
        }
    }
}

/// What rows add does not depend on what was there before.
proof fn lemma_rows_added<R>(
    a: Seq<LedgerEntry>,
    b: Seq<LedgerEntry>,
    rows: Seq<R>,
    entry: spec_fn(R) -> Result<LedgerEntry, RowError>,
    added: Seq<LedgerEntry>,
)
    requires
        with_rows(a, rows, entry) == Ok::<_, RowError>(a + added),
    ensures
        with_rows(b, rows, entry) == Ok::<_, RowError>(b + added),
    decreases rows.len(),
{
    if rows.len() == 0 {
        assert(added =~= Seq::empty());
        assert(b + added =~= b);
    } else {
        let before = with_rows(a, rows.drop_last(), entry)->Ok_0;
        lemma_rows_in_order(a, rows.drop_last(), entry, before);
        lemma_rows_in_order(a, rows, entry, a + added);
        assert(before =~= a + added.drop_last()) by {
            assert((a + added).drop_last() =~= before);
        }
        lemma_rows_added(a, b, rows.drop_last(), entry, added.drop_last());
        assert(added.last() == (a + added).last());
        assert((b + added.drop_last()).push(added.last()) =~= b + added);
    }
}

/// A credit that is booked at or after `since`, in the four-digit years, is what the statement
/// gains, with its amount and time; one from before `since` changes nothing.
pub proof fn law_booked_credit_is_shown(
    credits: Seq<CreditRow>,
    debits: Seq<DebitRow>,
    since: Timestamp,
    entries: Seq<LedgerEntry>,
    out: Seq<LedgerEntry>,
    row: CreditRow,
    amount: u64,
    now: Timestamp,
    after: Seq<LedgerEntry>,
)
    requires
        history_from(credits, debits, since) == Ok::<_, RowError>(entries),
        newest_first(entries, out),
        records_credit(row, amount, now),
        now.in_four_digit_year(),
    ensures
        ({
            let entry = LedgerEntry::Credit { amount, at: now };
            let gained = history_from(credits.push(row), debits, since);
            if now.before(since) {
                gained == Ok::<_, RowError>(entries)
            } else {
                &&& gained is Ok
                &&& newest_first(gained->Ok_0, after) ==> after.to_multiset()
                    == out.to_multiset().insert(entry)
            }
        }),
{
    let entry = LedgerEntry::Credit { amount, at: now };
    law_credit_row_reads_back(row, amount, now);
    let c = credits.filter(credits_from(since));
    let d = debits.filter(debits_from(since));
    credits.lemma_filter_push(row, credits_from(since));
    if !now.before(since) {
        assert(c.push(row).drop_last() =~= c);
        let booked = with_rows(Seq::empty(), c, as_credit())->Ok_0;
        assert(with_rows(Seq::empty(), c.push(row), as_credit()) == Ok::<_, RowError>(
            booked.push(entry),
        ));
        lemma_rows_in_order(booked, d, as_debit(), entries);
        let added = entries.skip(booked.len() as int);
        assert(entries =~= booked + added);
        lemma_rows_added(booked, booked.push(entry), d, as_debit(), added);
        let gained = booked.push(entry) + added;
        if newest_first(gained, after) {
            law_sorting_keeps_entries(entries, out);
            law_sorting_keeps_entries(gained, after);
            vstd::seq_lib::lemma_multiset_commutative(booked.push(entry), added);
            vstd::seq_lib::lemma_multiset_commutative(booked, added);
            booked.to_multiset_ensures();
            assert(gained.to_multiset() =~= entries.to_multiset().insert(entry));
        }
    }
}

/// The entries booked at or after `since`.
pub open spec fn booked_from(since: Timestamp) -> spec_fn(LedgerEntry) -> bool {
    |entry: LedgerEntry| !entry.instant().before(since)
}

/// What the later of the rows stand for is the later part of what all of them stand for.
proof fn lemma_later_rows<R>(
    start: Seq<LedgerEntry>,
    rows: Seq<R>,
    wide: spec_fn(R) -> bool,
    narrow: spec_fn(R) -> bool,
    entry: spec_fn(R) -> Result<LedgerEntry, RowError>,
    shown: spec_fn(LedgerEntry) -> bool,
    all: Seq<LedgerEntry>,
    part: Seq<LedgerEntry>,
)
    requires
        forall|row: R|
            #![trigger entry(row)]
            entry(row) is Ok ==> (narrow(row) <==> wide(row) && shown(entry(row)->Ok_0)),
        with_rows(start, rows.filter(wide), entry) == Ok::<_, RowError>(all),
        with_rows(start.filter(shown), rows.filter(narrow), entry) == Ok::<_, RowError>(part),
    ensures
        part == all.filter(shown),
    decreases rows.len(),
{
    reveal(Seq::filter);
    if rows.len() > 0 {
        let rest = rows.drop_last();
        let last = rows.last();
        assert(rest.filter(wide).push(last).drop_last() =~= rest.filter(wide));
        assert(rest.filter(narrow).push(last).drop_last() =~= rest.filter(narrow));
        assert(entry(last) is Ok || !wide(last));
        assert(entry(last) is Ok || !narrow(last));
        let all_before = with_rows(start, rest.filter(wide), entry)->Ok_0;
        let part_before = with_rows(start.filter(shown), rest.filter(narrow), entry)->Ok_0;
        lemma_later_rows(
            start,
            rest,
            wide,
            narrow,
            entry,
            shown,
            all_before,
            part_before,
        );
        if wide(last) {
            all_before.lemma_filter_push(entry(last)->Ok_0, shown);
        }
    }
}

/// A statement from an instant on is the part of any statement from that instant or an earlier
/// one that is from then on.
pub proof fn law_later_statement_is_a_part(
    credits: Seq<CreditRow>,
    debits: Seq<DebitRow>,
    since: Timestamp,
    later_since: Timestamp,
    all: Seq<LedgerEntry>,
    part: Seq<LedgerEntry>,
    out: Seq<LedgerEntry>,
)
    requires
        !later_since.before(since),
        history_from(credits, debits, since) == Ok::<_, RowError>(all),
        history_from(credits, debits, later_since) == Ok::<_, RowError>(part),
        newest_first(all, out),
    ensures
        newest_first(part, out.filter(booked_from(later_since))),
{
    let shown = booked_from(later_since);
    let booked = with_rows(
        Seq::empty(),
        credits.filter(credits_from(since)),
        as_credit(),
    )->Ok_0;
    let booked_part = with_rows(
        Seq::empty(),
        credits.filter(credits_from(later_since)),
        as_credit(),
    )->Ok_0;
    assert(Seq::<LedgerEntry>::empty().filter(shown) =~= Seq::empty()) by {
        reveal(Seq::filter);
    }
    lemma_later_rows(
        Seq::empty(),
        credits,
        credits_from(since),
        credits_from(later_since),
        as_credit(),
        shown,
        booked,
        booked_part,
    );
    lemma_later_rows(
        booked,
        debits,
        debits_from(since),
        debits_from(later_since),
        as_debit(),
        shown,
        all,
        part,
    );
    lemma_filter_descends(out, shown);
    assert forall|at: Timestamp| #[trigger]
        out.filter(shown).filter(booked_at(at)) == part.filter(booked_at(at)) by {
        let both = |entry: LedgerEntry| shown(entry) && booked_at(at)(entry);
        lemma_filter_twice(out, shown, booked_at(at), both);
        lemma_filter_twice(out, booked_at(at), shown, both);
        lemma_filter_twice(all, shown, booked_at(at), both);
        lemma_filter_twice(all, booked_at(at), shown, both);
        assert(out.filter(booked_at(at)) == all.filter(booked_at(at)));
    }
}

/// `out` is sorted: no entry was booked before one that follows it, by second and nanosecond.
pub proof fn law_statement_is_sorted(
    entries: Seq<LedgerEntry>,
    out: Seq<LedgerEntry>,
    i: int,
    j: int,
)
    requires
        newest_first(entries, out),
        0 <= i < j < out.len(),
    ensures
        out[i].instant().secs > out[j].instant().secs || (out[i].instant().secs
            == out[j].instant().secs && out[i].instant().nanos >= out[j].instant().nanos),
{
    assert(!out[i].instant().before(out[j].instant()));
}

/// The entries of one instant come in a statement in the order in which they came before.
pub proof fn law_one_instant_keeps_order(
    entries: Seq<LedgerEntry>,
    out: Seq<LedgerEntry>,
    at: Timestamp,
)
    requires
        newest_first(entries, out),
    ensures
        out.filter(|entry: LedgerEntry| entry.instant() == at) == entries.filter(
            |entry: LedgerEntry| entry.instant() == at,
        ),
{
    let same = |entry: LedgerEntry| entry.instant() == at;
    assert(same =~= booked_at(at));
    assert(out.filter(booked_at(at)) == entries.filter(booked_at(at)));
}

/// An entry was booked when it says.
pub proof fn law_entry_has_its_time(entry: LedgerEntry)
    ensures
        entry matches LedgerEntry::Credit { at, .. } ==> entry.instant() == at,
        entry matches LedgerEntry::Debit { at, .. } ==> entry.instant() == at,
{
}

/// A row of credits whose time can be read stands for a credit of its amount at that time, and
/// any other is an error of the time.
pub proof fn law_credit_row_stands_for(row: CreditRow)
    ensures
        match rfc3339_instant(row.created_at@) {
            Some(at) => credit_entry(row) matches Ok(entry) && (entry matches LedgerEntry::Credit {
                amount,
                at: booked,
            } && amount == row.amount as int % 0x1_0000_0000_0000_0000 && booked == at),
            None => credit_entry(row) == Err::<LedgerEntry, _>(RowError::Timestamp),
        },
{
    law_column_is_the_amount(0, row.amount);
}

/// A row of processed debits that can be read stands for a debit with its ids, amount and time,
/// and any other is an error of the first of these that cannot.
pub proof fn law_debit_row_stands_for(row: DebitRow)
    ensures
        parsed_id(row.debit_id@) is None ==> debit_entry(row) == Err::<LedgerEntry, _>(
            RowError::DebitId,
        ),
        parsed_id(row.debit_id@) is Some && parsed_id(row.order_id@) is None ==> debit_entry(row)
            == Err::<LedgerEntry, _>(RowError::OrderId),
        parsed_id(row.debit_id@) is Some && parsed_id(row.order_id@) is Some && rfc3339_instant(
            row.created_at@,
        ) is None ==> debit_entry(row) == Err::<LedgerEntry, _>(RowError::Timestamp),
        parsed_id(row.debit_id@) is Some && parsed_id(row.order_id@) is Some && rfc3339_instant(
            row.created_at@,
        ) is Some ==> (debit_entry(row) matches Ok(entry) && (entry matches LedgerEntry::Debit {
            debit_id,
            order_id,
            amount,
            at,
        } && Some(debit_id) == parsed_id(row.debit_id@) && Some(order_id) == parsed_id(
            row.order_id@,
        ) && amount == row.amount as int % 0x1_0000_0000_0000_0000 && Some(at) == rfc3339_instant(
            row.created_at@,
        ))),
{
    law_column_is_the_amount(0, row.amount);
}

/// A row of credits that a statement from `since` on can do with: its time can be read, or its
/// text sorts before that of `since`.
pub open spec fn credit_will_do(row: CreditRow, since: Timestamp) -> bool {
    rfc3339_instant(row.created_at@) is Some || text_before(row.created_at@, rfc3339_text(since))
}

/// A row of processed debits that a statement from `since` on can do with: all of it can be
/// read, or its time is before `since`, or cannot be read and sorts before `since`.
pub open spec fn debit_will_do(row: DebitRow, since: Timestamp) -> bool {
    match rfc3339_instant(row.created_at@) {
        Some(at) => at.before(since) || (parsed_id(row.debit_id@) is Some && parsed_id(
            row.order_id@,
        ) is Some),
        None => text_before(row.created_at@, rfc3339_text(since)),
    }
}

/// Rows that all stand for something come to entries, and rows that do not, to none.
proof fn lemma_rows_come_to_entries<R>(
    start: Seq<LedgerEntry>,
    rows: Seq<R>,
    entry: spec_fn(R) -> Result<LedgerEntry, RowError>,
)
    ensures
        with_rows(start, rows, entry) is Ok <==> forall|i: int|
            0 <= i < rows.len() ==> entry(#[trigger] rows[i]) is Ok,
    decreases rows.len(),
{
    if rows.len() > 0 {
        let rest = rows.drop_last();
        lemma_rows_come_to_entries(start, rest, entry);
        if with_rows(start, rows, entry) is Ok {
            assert forall|i: int| 0 <= i < rows.len() implies entry(#[trigger] rows[i]) is Ok by {
                if i < rows.len() - 1 {
                    assert(rest[i] == rows[i]);
                }
            }
        }
        if forall|i: int| 0 <= i < rows.len() ==> entry(#[trigger] rows[i]) is Ok {
            assert forall|i: int| 0 <= i < rest.len() implies entry(#[trigger] rest[i]) is Ok by {
                assert(rest[i] == rows[i]);
            }
            assert(entry(rows[rows.len() - 1]) is Ok);
        }
    }
}

/// What holds of all rows that a filter keeps.
proof fn lemma_all_kept<R>(rows: Seq<R>, keep: spec_fn(R) -> bool, good: spec_fn(R) -> bool)
    ensures
        (forall|i: int| 0 <= i < rows.filter(keep).len() ==> good(#[trigger] rows.filter(keep)[i]))
            <==> (forall|i: int|
            0 <= i < rows.len() ==> (keep(#[trigger] rows[i]) ==> good(rows[i]))),
{
    let kept = rows.filter(keep);
    if forall|i: int| 0 <= i < kept.len() ==> good(#[trigger] kept[i]) {
        assert forall|i: int| 0 <= i < rows.len() implies (keep(#[trigger] rows[i]) ==> good(
            rows[i],
        )) by {
            if keep(rows[i]) {
                assert(rows.contains(rows[i]));
                lemma_filter_holds(rows, keep, rows[i]);
                let k = choose|k: int| 0 <= k < kept.len() && kept[k] == rows[i];
                assert(good(kept[k]));
            }
        }
    }
    if forall|i: int| 0 <= i < rows.len() ==> (keep(#[trigger] rows[i]) ==> good(rows[i])) {
        assert forall|i: int| 0 <= i < kept.len() implies good(#[trigger] kept[i]) by {
            assert(kept.contains(kept[i]));
            lemma_filter_holds(rows, keep, kept[i]);
            let k = choose|k: int| 0 <= k < rows.len() && rows[k] == kept[i];
            assert(keep(rows[k]));
        }
    }
}

/// A statement succeeds exactly where every row will do, whatever `since` is. In particular it
/// succeeds where every row can be read, and a statement of no rows is empty.
pub proof fn law_statement_succeeds(
    credits: Seq<CreditRow>,
    debits: Seq<DebitRow>,
    since: Timestamp,
)
    ensures
        history_from(credits, debits, since) is Ok <==> (forall|i: int|
            0 <= i < credits.len() ==> credit_will_do(#[trigger] credits[i], since)) && (forall|
            i: int,
        |
            0 <= i < debits.len() ==> debit_will_do(#[trigger] debits[i], since)),
        credits.len() == 0 && debits.len() == 0 ==> (history_from(credits, debits, since) matches Ok(
            entries,
        ) && entries.len() == 0),
{
    let c = credits.filter(credits_from(since));
    let d = debits.filter(debits_from(since));
    let good_credit = |row: CreditRow| as_credit()(row) is Ok;
    let good_debit = |row: DebitRow| as_debit()(row) is Ok;
    lemma_rows_come_to_entries(Seq::empty(), c, as_credit());
    lemma_all_kept(credits, credits_from(since), good_credit);
    assert forall|row: CreditRow|
        (credits_from(since)(row) ==> good_credit(row)) <==> #[trigger] credit_will_do(
            row,
            since,
        ) by {}
    assert((forall|i: int| 0 <= i < c.len() ==> as_credit()(#[trigger] c[i]) is Ok) <==> (forall|
        i: int,
    |
        0 <= i < c.len() ==> good_credit(#[trigger] c[i])));
    assert((forall|i: int|
        0 <= i < credits.len() ==> (credits_from(since)(#[trigger] credits[i]) ==> good_credit(
            credits[i],
        ))) <==> (forall|i: int|
        0 <= i < credits.len() ==> credit_will_do(#[trigger] credits[i], since))) by {
        if forall|i: int|
            0 <= i < credits.len() ==> (credits_from(since)(#[trigger] credits[i]) ==> good_credit(
                credits[i],
            )) {
            assert forall|i: int| 0 <= i < credits.len() implies credit_will_do(
                #[trigger] credits[i],
                since,
            ) by {
                assert(credits_from(since)(credits[i]) ==> good_credit(credits[i]));
            }
        }
        if forall|i: int| 0 <= i < credits.len() ==> credit_will_do(#[trigger] credits[i], since) {
            assert forall|i: int| 0 <= i < credits.len() implies (credits_from(since)(
                #[trigger] credits[i],
            ) ==> good_credit(credits[i])) by {
                assert(credit_will_do(credits[i], since));
            }
        }
    }
    if with_rows(Seq::empty(), c, as_credit()) is Ok {
        let booked = with_rows(Seq::empty(), c, as_credit())->Ok_0;
        lemma_rows_come_to_entries(booked, d, as_debit());
    }
    lemma_all_kept(debits, debits_from(since), good_debit);
    assert((forall|i: int| 0 <= i < d.len() ==> as_debit()(#[trigger] d[i]) is Ok) <==> (forall|
        i: int,
    |
        0 <= i < d.len() ==> good_debit(#[trigger] d[i])));
    assert((forall|i: int|
        0 <= i < debits.len() ==> (debits_from(since)(#[trigger] debits[i]) ==> good_debit(
            debits[i],
        ))) <==> (forall|i: int|
        0 <= i < debits.len() ==> debit_will_do(#[trigger] debits[i], since))) by {
        assert forall|row: DebitRow|
            (debits_from(since)(row) ==> good_debit(row)) <==> #[trigger] debit_will_do(
                row,
                since,
            ) by {}
        if forall|i: int|
            0 <= i < debits.len() ==> (debits_from(since)(#[trigger] debits[i]) ==> good_debit(
                debits[i],
            )) {
            assert forall|i: int| 0 <= i < debits.len() implies debit_will_do(
                #[trigger] debits[i],
                since,
            ) by {
                assert(debits_from(since)(debits[i]) ==> good_debit(debits[i]));
            }
        }
        if forall|i: int| 0 <= i < debits.len() ==> debit_will_do(#[trigger] debits[i], since) {
            assert forall|i: int| 0 <= i < debits.len() implies (debits_from(since)(
                #[trigger] debits[i],
            ) ==> good_debit(debits[i])) by {
                assert(debit_will_do(debits[i], since));
            }
        }
    }
    if credits.len() == 0 && debits.len() == 0 {
        reveal(Seq::filter);
        assert(c.len() == 0 && d.len() == 0);
    }
}

/// What comes of rows is decided by the first that stands for nothing.
proof fn lemma_first_error<R>(
    start: Seq<LedgerEntry>,
    rows: Seq<R>,
    entry: spec_fn(R) -> Result<LedgerEntry, RowError>,
    n: int,
)
    requires
        0 <= n < rows.len(),
        forall|i: int| 0 <= i < n ==> entry(#[trigger] rows[i]) is Ok,
        entry(rows[n]) is Err,
    ensures
        with_rows(start, rows, entry) == Err::<Seq<LedgerEntry>, _>(entry(rows[n])->Err_0),
    decreases rows.len(),
{
    let rest = rows.drop_last();
    if n == rows.len() - 1 {
        lemma_rows_come_to_entries(start, rest, entry);
        assert forall|i: int| 0 <= i < rest.len() implies entry(#[trigger] rest[i]) is Ok by {
            assert(rest[i] == rows[i]);
        }
    } else {
        assert forall|i: int| 0 <= i < n implies entry(#[trigger] rest[i]) is Ok by {
            assert(rest[i] == rows[i]);
        }
        assert(rest[n] == rows[n]);
        lemma_first_error(start, rest, entry, n);
    }
}

/// A statement that fails says why: a credit whose time will not do comes before any debit, and
/// of the debits the first that will not do decides, by its debit id, its order id or its time.
pub proof fn law_statement_fails_for_a_reason(
    credits: Seq<CreditRow>,
    debits: Seq<DebitRow>,
    since: Timestamp,
    n: int,
)
    ensures
        (exists|i: int| 0 <= i < credits.len() && !credit_will_do(#[trigger] credits[i], since))
            ==> history_from(credits, debits, since) == Err::<Seq<LedgerEntry>, _>(
            RowError::Timestamp,
        ),
        (forall|i: int| 0 <= i < credits.len() ==> credit_will_do(#[trigger] credits[i], since))
            && 0 <= n < debits.len() && !debit_will_do(debits[n], since) && (forall|i: int|
            0 <= i < n ==> debit_will_do(#[trigger] debits[i], since)) ==> history_from(
            credits,
            debits,
            since,
        ) == Err::<Seq<LedgerEntry>, _>(
            if parsed_id(debits[n].debit_id@) is None {
                RowError::DebitId
            } else if parsed_id(debits[n].order_id@) is None {
                RowError::OrderId
            } else {
                RowError::Timestamp
            },
        ),
{
    let c = credits.filter(credits_from(since));
    let d = debits.filter(debits_from(since));
    lemma_only_time_errors(c);
    if exists|i: int| 0 <= i < credits.len() && !credit_will_do(#[trigger] credits[i], since) {
        let i = choose|i: int|
            0 <= i < credits.len() && !credit_will_do(#[trigger] credits[i], since);
        assert(credits.contains(credits[i]));
        lemma_filter_holds(credits, credits_from(since), credits[i]);
        let k = choose|k: int| 0 <= k < c.len() && c[k] == credits[i];
        lemma_rows_come_to_entries(Seq::empty(), c, as_credit());
        assert(!(as_credit()(c[k]) is Ok));
    } else if 0 <= n < debits.len() && !debit_will_do(debits[n], since) && (forall|i: int|
        0 <= i < n ==> debit_will_do(#[trigger] debits[i], since)) {
        law_statement_succeeds(credits, Seq::empty(), since);
        assert(Seq::<DebitRow>::empty().filter(debits_from(since)) =~= Seq::empty()) by {
            reveal(Seq::filter);
        }
        let booked = with_rows(Seq::empty(), c, as_credit())->Ok_0;
        lemma_filter_next(debits, debits_from(since), n);
        let before = debits.take(n).filter(debits_from(since));
        let m = before.len() as int;
        let read = debits.take(n + 1).filter(debits_from(since));
        assert(read == before.push(debits[n]));
        assert(d.take(read.len() as int) == read);
        assert(d[m] == d.take(read.len() as int)[m]);
        assert(d[m] == debits[n]);
        assert forall|i: int| 0 <= i < m implies as_debit()(#[trigger] d[i]) is Ok by {
            assert(d[i] == d.take(read.len() as int)[i]);
            assert(before[i] == d[i]);
            assert(before.contains(before[i]));
            lemma_filter_holds(debits.take(n), debits_from(since), before[i]);
            let k = choose|k: int| 0 <= k < debits.take(n).len() && debits.take(n)[k] == before[i];
            assert(debits[k] == before[i]);
            assert(debit_will_do(debits[k], since));
        }
        lemma_first_error(booked, d, as_debit(), m);
    }
}

/// Rows of credits come to no error but of the time.
proof fn lemma_only_time_errors(rows: Seq<CreditRow>)
    ensures
        with_rows(Seq::empty(), rows, as_credit()) is Err ==> with_rows(
            Seq::empty(),
            rows,
            as_credit(),
        ) == Err::<Seq<LedgerEntry>, _>(RowError::Timestamp),
    decreases rows.len(),
{
    if rows.len() > 0 {
        lemma_only_time_errors(rows.drop_last());
    }
}

/// Nothing is shown that was booked before `since`, and nothing that no row stands for.
pub proof fn law_shown_entry_is_from_a_row(
    credits: Seq<CreditRow>,
    debits: Seq<DebitRow>,
    since: Timestamp,
    entries: Seq<LedgerEntry>,
    out: Seq<LedgerEntry>,
    i: int,
)
    requires
        history_from(credits, debits, since) == Ok::<_, RowError>(entries),
        newest_first(entries, out),
        0 <= i < out.len(),
    ensures
        !out[i].instant().before(since),
        (exists|k: int|
            0 <= k < credits.len() && credit_entry(#[trigger] credits[k]) == Ok::<_, RowError>(
                out[i],
            )) || (exists|k: int|
            0 <= k < debits.len() && debit_entry(#[trigger] debits[k]) == Ok::<_, RowError>(
                out[i],
            )),
{
    let c = credits.filter(credits_from(since));
    let d = debits.filter(debits_from(since));
    law_statement_is_exact(credits, debits, since, entries, out);
    out.to_multiset_ensures();
    entries.to_multiset_ensures();
    assert(out.contains(out[i]));
    assert(entries.to_multiset().count(out[i]) > 0);
    assert(entries.contains(out[i]));
    let k = choose|k: int| 0 <= k < entries.len() && entries[k] == out[i];
    if k < c.len() {
        assert(credit_entry(c[k]) == Ok::<_, RowError>(entries[k]));
        assert(c.contains(c[k]));
        lemma_filter_holds(credits, credits_from(since), c[k]);
        let j = choose|j: int| 0 <= j < credits.len() && credits[j] == c[k];
        assert(credit_entry(credits[j]) == Ok::<_, RowError>(out[i]));
    } else {
        let m = k - c.len();
        assert(debit_entry(d[m]) == Ok::<_, RowError>(entries[c.len() + m]));
        assert(d.contains(d[m]));
        lemma_filter_holds(debits, debits_from(since), d[m]);
        let j = choose|j: int| 0 <= j < debits.len() && debits[j] == d[m];
        assert(debit_entry(debits[j]) == Ok::<_, RowError>(out[i]));
    }
}

/// What a statement gives where it succeeds: every credit and every debit of the rows at or after
/// `since`, and nothing else, newest first. It succeeds exactly where every row will do.
pub proof fn law_statement(
    credits: &Vec<CreditRow>,
    debits: &Vec<DebitRow>,
    since: Timestamp,
    r: Result<Vec<LedgerEntry>, RowError>,
    entry: LedgerEntry,
    i: int,
    j: int,
)
    requires
        call_ensures(statement, (credits, debits, since), r),
    ensures
        r is Ok <==> (forall|k: int|
            0 <= k < credits@.len() ==> credit_will_do(#[trigger] credits@[k], since)) && (forall|
            k: int,
        |
            0 <= k < debits@.len() ==> debit_will_do(#[trigger] debits@[k], since)),
        r matches Ok(out) ==> {
            &&& out@.contains(entry) <==> !entry.instant().before(since) && ((exists|k: int|
                0 <= k < credits@.len() && credit_entry(#[trigger] credits@[k]) == Ok::<
                    _,
                    RowError,
                >(entry)) || (exists|k: int|
                0 <= k < debits@.len() && debit_entry(#[trigger] debits@[k]) == Ok::<
                    _,
                    RowError,
                >(entry)))
            &&& 0 <= i < j < out@.len() ==> (out@[i].instant().secs > out@[j].instant().secs || (
            out@[i].instant().secs == out@[j].instant().secs && out@[i].instant().nanos
                >= out@[j].instant().nanos))
        },
{
    law_statement_succeeds(credits@, debits@, since);
    if let Ok(out) = r {
        let entries = history_from(credits@, debits@, since)->Ok_0;
        assert(newest_first(entries, out@));
        if out@.contains(entry) {
            let k = choose|k: int| 0 <= k < out@.len() && out@[k] == entry;
            law_shown_entry_is_from_a_row(credits@, debits@, since, entries, out@, k);
        } else if !entry.instant().before(since) && ((exists|k: int|
            0 <= k < credits@.len() && credit_entry(#[trigger] credits@[k]) == Ok::<_, RowError>(
                entry,
            )) || (exists|k: int|
            0 <= k < debits@.len() && debit_entry(#[trigger] debits@[k]) == Ok::<_, RowError>(
                entry,
            ))) {
            law_row_is_shown(credits@, debits@, since, entries, out@, entry);
        }
        if 0 <= i < j < out@.len() {
            law_statement_is_sorted(entries, out@, i, j);
        }
    }
}

} // verus!
