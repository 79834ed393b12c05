use chrono::{DateTime, Duration, Utc};
use payment_service::repository::{
    balance, credit, credit_at, debit_processed, from_column, key, mark_processed,
    mark_processed_at, to_column, try_debit, BalanceOverflow,
};
use payment_service::time::{
    Timestamp, FIRST_SECOND, LAST_SECOND, LONGEST_SPAN_NANOS, LONGEST_SPAN_SECONDS, YEAR_9999_END,
    YEAR_ZERO,
};
use uuid::Uuid;

#[test]
fn columns_hold_the_bits_of_amounts() {
    for (amount, column) in [
        (0u64, 0i64),
        (1, 1),
        (i64::MAX as u64, i64::MAX),
        (i64::MAX as u64 + 1, i64::MIN),
        (u64::MAX, -1),
        (u64::MAX - 4, -5),
    ] {
        assert_eq!(to_column(amount), column);
        assert_eq!(to_column(amount), amount as i64);
        assert_eq!(from_column(column), amount);
        assert_eq!(from_column(column), column as u64);
    }
}

#[test]
fn the_balance_without_an_account_is_zero() {
    assert_eq!(balance(None), 0);
    assert_eq!(balance(Some(250)), 250);
    assert_eq!(balance(Some(-1)), u64::MAX);
}

#[test]
fn a_debit_is_taken_where_the_balance_suffices() {
    assert_eq!(try_debit(Some(100), 30), Some(70));
    assert_eq!(try_debit(Some(100), 100), Some(0));
    assert_eq!(try_debit(Some(100), 101), None);
    assert_eq!(try_debit(Some(0), 0), Some(0));
    assert_eq!(try_debit(None, 0), None);
    assert_eq!(try_debit(None, 5), None);
}

#[test]
fn amounts_past_the_signed_range_are_compared_as_amounts() {
    // A balance of u64::MAX covers anything.
    assert_eq!(try_debit(Some(-1), u64::MAX), Some(0));
    // An amount of u64::MAX is covered by no smaller balance.
    assert_eq!(try_debit(Some(100), u64::MAX), None);
}

#[test]
fn exists_is_read_as_a_truth_value() {
    assert!(!debit_processed(0));
    assert!(debit_processed(1));
}

#[test]
fn a_credit_raises_the_balance_and_writes_its_row() {
    let user = Uuid::new_v4();
    let now = Timestamp { secs: 1_700_000_000, nanos: 5_000 };
    let write = credit_at(user.as_u128(), Some(40), 60, now).unwrap();
    assert_eq!(write.user_id, user.to_string());
    assert_eq!(write.balance, 100);
    assert_eq!(write.row.amount, 60);
    assert_eq!(write.row.created_at, "2023-11-14T22:13:20.000005+00:00");
    assert_eq!(
        write.row.created_at,
        DateTime::<Utc>::from_timestamp(1_700_000_000, 5_000).unwrap().to_rfc3339()
    );
}

#[test]
fn a_credit_makes_the_account() {
    let write = credit_at(1, None, 60, Timestamp { secs: 0, nanos: 0 }).unwrap();
    assert_eq!(write.balance, 60);
    assert_eq!(write.row.created_at, "1970-01-01T00:00:00+00:00");
}

#[test]
fn a_credit_past_the_largest_amount_is_refused() {
    let now = Timestamp { secs: 0, nanos: 0 };
    assert_eq!(credit_at(1, Some(-1), 1, now).unwrap_err(), BalanceOverflow);
    assert_eq!(credit(1, Some(1), u64::MAX).unwrap_err(), BalanceOverflow);
    assert_eq!(credit_at(1, Some(-2), 1, now).unwrap().balance, -1);
}

#[test]
fn a_credit_is_stamped_with_the_time_of_the_clock() {
    let before = Utc::now();
    let write = credit(1, None, 5).unwrap();
    let after = Utc::now();
    let at = DateTime::parse_from_rfc3339(&write.row.created_at).unwrap();
    assert!(before <= at && at <= after);
}

#[test]
fn the_record_of_a_debit_says_what_it_took() {
    let (debit, order, user) = (Uuid::new_v4(), Uuid::new_v4(), Uuid::new_v4());
    let now = Timestamp { secs: 1_700_000_000, nanos: 0 };
    let write =
        mark_processed_at(debit.as_u128(), order.as_u128(), user.as_u128(), u64::MAX, now);
    assert_eq!(write.user_id, user.to_string());
    assert_eq!(write.row.debit_id, debit.to_string());
    assert_eq!(write.row.order_id, order.to_string());
    assert_eq!(write.row.amount, -1);
    assert_eq!(write.row.created_at, "2023-11-14T22:13:20+00:00");
}

#[test]
fn the_record_of_a_debit_is_stamped_with_the_time_of_the_clock() {
    let before = Utc::now();
    let write = mark_processed(1, 2, 3, 4);
    let after = Utc::now();
    let at = DateTime::parse_from_rfc3339(&write.row.created_at).unwrap();
    assert!(before <= at && at <= after);
    assert_eq!(write.row.amount, 4);
}

#[test]
fn keys_are_hyphenated_lower_case_text() {
    assert_eq!(
        key(0x0123_4567_89ab_cdef_fedc_ba98_7654_3210),
        "01234567-89ab-cdef-fedc-ba9876543210"
    );
    assert_eq!(key(0), "00000000-0000-0000-0000-000000000000");
    assert_eq!(key(u128::MAX), "ffffffff-ffff-ffff-ffff-ffffffffffff");
}

#[test]
fn the_bounds_of_time_are_those_of_the_calendar() {
    assert_eq!(FIRST_SECOND, DateTime::<Utc>::MIN_UTC.timestamp());
    assert_eq!(LAST_SECOND, DateTime::<Utc>::MAX_UTC.timestamp());
    let year_zero = DateTime::parse_from_rfc3339("0000-01-01T00:00:00Z").unwrap();
    assert_eq!(YEAR_ZERO, year_zero.timestamp());
    let year_9999 = DateTime::parse_from_rfc3339("9999-12-31T23:59:59Z").unwrap();
    assert_eq!(YEAR_9999_END, year_9999.timestamp());
    assert_eq!(LONGEST_SPAN_SECONDS, Duration::MAX.num_seconds());
    assert_eq!(LONGEST_SPAN_NANOS as i32, Duration::MAX.subsec_nanos());
}

#[test]
fn the_bounds_of_time_can_be_written() {
    let first = credit_at(1, None, 1, Timestamp { secs: FIRST_SECOND, nanos: 0 }).unwrap();
    assert_eq!(first.row.created_at, DateTime::<Utc>::MIN_UTC.to_rfc3339());
    let last = Timestamp { secs: LAST_SECOND, nanos: 999_999_999 };
    let last = credit_at(1, None, 1, last).unwrap();
    assert_eq!(last.row.created_at, DateTime::<Utc>::MAX_UTC.to_rfc3339());
    // A leap second.
    let leap = Timestamp { secs: 1_483_228_799, nanos: 1_500_000_000 };
    let leap = credit_at(1, None, 1, leap).unwrap();
    assert_eq!(leap.row.created_at, "2016-12-31T23:59:60.500+00:00");
}
