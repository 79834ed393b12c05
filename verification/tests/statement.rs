use payment_service::models::LedgerEntry;
use payment_service::repository::{credit_at, mark_processed_at, CreditRow, DebitRow};
use payment_service::statement::{sort_newest_first, statement, RowError};
use payment_service::text::is_text_before;
use payment_service::time::{Timestamp, YEAR_9999_END, YEAR_ZERO};

fn at(secs: i64) -> Timestamp {
    Timestamp { secs, nanos: 0 }
}

fn booked(amount: u64, secs: i64) -> CreditRow {
    credit_at(1, None, amount, at(secs)).unwrap().row
}

fn took(debit_id: u128, order_id: u128, amount: u64, secs: i64) -> DebitRow {
    mark_processed_at(debit_id, order_id, 1, amount, at(secs)).row
}

#[test]
fn a_statement_is_sorted_newest_first() {
    let credits = vec![booked(100, 10), booked(50, 30)];
    let debits = vec![took(7, 8, 20, 20), took(9, 8, 5, 40)];
    assert_eq!(
        statement(&credits, &debits, at(0)).unwrap(),
        vec![
            LedgerEntry::Debit { debit_id: 9, order_id: 8, amount: 5, at: at(40) },
            LedgerEntry::Credit { amount: 50, at: at(30) },
            LedgerEntry::Debit { debit_id: 7, order_id: 8, amount: 20, at: at(20) },
            LedgerEntry::Credit { amount: 100, at: at(10) },
        ]
    );
}

#[test]
fn a_statement_begins_at_since() {
    let credits = vec![booked(1, 10), booked(2, 20), booked(3, 30)];
    assert_eq!(
        statement(&credits, &vec![], at(20)).unwrap(),
        vec![
            LedgerEntry::Credit { amount: 3, at: at(30) },
            LedgerEntry::Credit { amount: 2, at: at(20) },
        ]
    );
    let just_after = Timestamp { secs: 20, nanos: 1 };
    assert_eq!(
        statement(&credits, &vec![], just_after).unwrap(),
        vec![LedgerEntry::Credit { amount: 3, at: at(30) }]
    );
    assert!(statement(&credits, &vec![], at(31)).unwrap().is_empty());
    assert!(statement(&vec![], &vec![], at(0)).unwrap().is_empty());
}

#[test]
fn entries_of_amount_zero_are_shown() {
    let credits = vec![booked(0, 5)];
    let debits = vec![took(1, 2, 0, 10), took(3, 4, 6, 11)];
    assert_eq!(
        statement(&credits, &debits, at(0)).unwrap(),
        vec![
            LedgerEntry::Debit { debit_id: 3, order_id: 4, amount: 6, at: at(11) },
            LedgerEntry::Debit { debit_id: 1, order_id: 2, amount: 0, at: at(10) },
            LedgerEntry::Credit { amount: 0, at: at(5) },
        ]
    );
}

#[test]
fn a_row_from_before_since_is_passed_over_whatever_it_holds() {
    let good = took(1, 2, 3, 1_700_000_000);
    let old = |created_at: &str| DebitRow {
        debit_id: "".into(),
        order_id: "x".into(),
        amount: 0,
        created_at: created_at.into(),
    };
    let debits = vec![
        old("1970-01-01T00:00:09+00:00"),
        old(""),
        old("1970-01-01 00:00:00"),
        old("0"),
        good,
    ];
    let credits = vec![
        CreditRow { amount: 1, created_at: "".into() },
        CreditRow { amount: 1, created_at: "2023-11-14 22:13:19".into() },
    ];
    assert_eq!(
        statement(&credits, &debits, at(1_700_000_000)).unwrap(),
        vec![LedgerEntry::Debit {
            debit_id: 1,
            order_id: 2,
            amount: 3,
            at: at(1_700_000_000),
        }]
    );
}

#[test]
fn a_row_that_cannot_be_placed_is_not_passed_over() {
    // `since` reads 2023-11-14T22:13:20+00:00.
    let since = at(1_700_000_000);
    for text in ["2023-11-14T22:13:21", "2024", "yesterday", "2023-11-14T22:13:20+00:00x"] {
        let credits = vec![CreditRow { amount: 1, created_at: text.into() }];
        assert_eq!(statement(&credits, &vec![], since), Err(RowError::Timestamp));
    }
    for text in ["2023-11-14T22:13:20+00:0", "2023-11-14T22:13:20", "2023-11-14T22:13:20+"] {
        let credits = vec![CreditRow { amount: 1, created_at: text.into() }];
        assert!(statement(&credits, &vec![], since).unwrap().is_empty());
    }
}

#[test]
fn a_recorded_debit_is_what_the_statement_gains() {
    let credits = vec![booked(100, 10)];
    let mut debits = vec![took(1, 2, 30, 20)];
    let before = statement(&credits, &debits, at(0)).unwrap();
    debits.push(took(3, 4, 0, 15));
    let after = statement(&credits, &debits, at(0)).unwrap();
    assert_eq!(after.len(), before.len() + 1);
    assert_eq!(after[0], before[0]);
    assert_eq!(after[1], LedgerEntry::Debit { debit_id: 3, order_id: 4, amount: 0, at: at(15) });
    assert_eq!(after[2], before[1]);
}

#[test]
fn entries_of_one_instant_stay_in_order_with_credits_first() {
    let credits = vec![booked(1, 10), booked(2, 10)];
    let debits = vec![took(5, 6, 3, 10), took(7, 8, 4, 10)];
    let amounts: Vec<u64> = statement(&credits, &debits, at(0))
        .unwrap()
        .iter()
        .map(|entry| match entry {
            LedgerEntry::Credit { amount, .. } => *amount,
            LedgerEntry::Debit { amount, .. } => *amount,
        })
        .collect();
    assert_eq!(amounts, vec![1, 2, 3, 4]);
}

#[test]
fn amounts_and_identifiers_read_back() {
    let credits = vec![booked(u64::MAX, 10)];
    let debits = vec![took(u128::MAX, 1 << 100, u64::MAX - 1, 9)];
    assert_eq!(
        statement(&credits, &debits, at(0)).unwrap(),
        vec![
            LedgerEntry::Credit { amount: u64::MAX, at: at(10) },
            LedgerEntry::Debit {
                debit_id: u128::MAX,
                order_id: 1 << 100,
                amount: u64::MAX - 1,
                at: at(9),
            },
        ]
    );
}

#[test]
fn instants_of_the_four_digit_years_read_back() {
    let instants = [
        Timestamp { secs: YEAR_ZERO, nanos: 0 },
        Timestamp { secs: -1, nanos: 999_999_999 },
        Timestamp { secs: 1_700_000_000, nanos: 1 },
        Timestamp { secs: 1_700_000_000, nanos: 120_000_000 },
        Timestamp { secs: 1_483_228_799, nanos: 1_999_999_999 },
        Timestamp { secs: YEAR_9999_END, nanos: 999_999_999 },
    ];
    for instant in instants {
        let credits = vec![credit_at(1, None, 4, instant).unwrap().row];
        assert_eq!(
            statement(&credits, &vec![], instant).unwrap(),
            vec![LedgerEntry::Credit { amount: 4, at: instant }]
        );
    }
}

#[test]
fn text_of_another_zone_is_moved_to_utc() {
    let credits = vec![CreditRow { amount: 4, created_at: "1970-01-01T02:00:00+02:00".into() }];
    assert_eq!(
        statement(&credits, &vec![], at(0)).unwrap(),
        vec![LedgerEntry::Credit { amount: 4, at: at(0) }]
    );
}

#[test]
fn a_row_that_says_nothing_is_an_error() {
    let good = took(1, 2, 3, 10);
    let no_debit = DebitRow { debit_id: "x".into(), ..good.clone() };
    let no_order = DebitRow { order_id: "".into(), ..good.clone() };
    let no_time = DebitRow { created_at: "yesterday".into(), ..good.clone() };
    let nothing = DebitRow {
        debit_id: "x".into(),
        order_id: "y".into(),
        amount: 0,
        created_at: "z".into(),
    };
    let since = at(0);
    assert_eq!(statement(&vec![], &vec![no_debit.clone()], since), Err(RowError::DebitId));
    assert_eq!(statement(&vec![], &vec![no_order.clone()], since), Err(RowError::OrderId));
    assert_eq!(statement(&vec![], &vec![no_time.clone()], since), Err(RowError::Timestamp));
    assert_eq!(statement(&vec![], &vec![nothing], since), Err(RowError::DebitId));
    // The first bad row decides, and credits come first.
    let debits = vec![good, no_order, no_debit];
    assert_eq!(statement(&vec![], &debits, since), Err(RowError::OrderId));
    let credits = vec![booked(1, 1), CreditRow { amount: 1, created_at: "z".into() }];
    assert_eq!(statement(&credits, &debits, since), Err(RowError::Timestamp));
}

#[test]
fn long_lists_are_sorted_and_kept_stable() {
    let mut entries = Vec::new();
    let mut seed: u64 = 12_345;
    for n in 0..500u64 {
        seed = seed.wrapping_mul(6_364_136_223_846_793_005).wrapping_add(1);
        entries.push(LedgerEntry::Credit { amount: n, at: at((seed >> 60) as i64) });
    }
    let mut expected = entries.clone();
    expected.sort_by(|a, b| b.at().secs.cmp(&a.at().secs));
    assert_eq!(sort_newest_first(entries), expected);
}

#[test]
fn a_later_statement_is_a_part_of_an_earlier_one() {
    let credits = vec![booked(1, 10), booked(2, 20), booked(3, 30)];
    let debits = vec![took(1, 2, 1, 15), took(3, 4, 2, 25)];
    let early = statement(&credits, &debits, at(0)).unwrap();
    let late = statement(&credits, &debits, at(20)).unwrap();
    assert_eq!(early.len(), 5);
    assert_eq!(early[..3], late[..]);
    assert_eq!(statement(&credits, &debits, at(20)).unwrap(), late);
}

#[test]
fn texts_are_ordered_as_their_bytes_are() {
    let texts = ["", "0", "1970-01-01 00:00:00", "1970-01-01T00:00:00Z", "a", "ab", "é", "語", "🦀"];
    for a in texts {
        for b in texts {
            assert_eq!(is_text_before(a, b), a.as_bytes() < b.as_bytes());
        }
    }
}
