use wallet::account::AccountError;
use wallet::amount::{fmt_amount, fmt_amount_display, parse_amount, Amount};
use wallet::date::{fmt_date, last_day_of_month, parse_date, Date};
use wallet::interval::{interval_from_string, Interval};
use wallet::transaction::Transaction;

#[test]
fn amount_parse_exact_values() {
    assert_eq!(parse_amount("10.5").unwrap(), Amount::new(10_500_000_000));
    assert_eq!(parse_amount("10").unwrap(), Amount::new(10_000_000_000));
    assert_eq!(parse_amount("-10.5").unwrap(), Amount::new(-10_500_000_000));
    assert_eq!(parse_amount("0.000000001").unwrap(), Amount::new(1));
    assert_eq!(parse_amount("-0.000000001").unwrap(), Amount::new(-1));
    assert_eq!(parse_amount("0005.25").unwrap(), Amount::new(5_250_000_000));
    assert_eq!(
        parse_amount("9223372036.854775807").unwrap(),
        Amount::new(i64::MAX)
    );
    assert_eq!(
        parse_amount("-9223372036.854775808").unwrap(),
        Amount::new(i64::MIN)
    );
}

#[test]
fn amount_parse_rejects() {
    assert_eq!(parse_amount(""), Err(AccountError::InvalidAmount));
    assert_eq!(parse_amount("abc"), Err(AccountError::InvalidAmount));
    assert_eq!(parse_amount("-"), Err(AccountError::InvalidAmount));
    assert_eq!(parse_amount("10."), Err(AccountError::InvalidAmount));
    assert_eq!(parse_amount(".5"), Err(AccountError::InvalidAmount));
    assert_eq!(parse_amount("1.0000000001"), Err(AccountError::InvalidAmount));
    assert_eq!(parse_amount("1,5"), Err(AccountError::InvalidAmount));
    assert_eq!(parse_amount("9223372036.854775808"), Err(AccountError::InvalidAmount));
    assert_eq!(parse_amount("-9223372036.854775809"), Err(AccountError::InvalidAmount));
    assert_eq!(parse_amount("99999999999"), Err(AccountError::InvalidAmount));
}

#[test]
fn amount_format_and_round_trip() {
    assert_eq!(fmt_amount(Amount::new(10_500_000_000)), "10.500000000");
    assert_eq!(fmt_amount(Amount::new(-1)), "-0.000000001");
    assert_eq!(fmt_amount(Amount::new(0)), "0.000000000");
    for v in [
        0i64,
        1,
        -1,
        10_500_000_000,
        -123_456_789_012,
        i64::MAX,
        i64::MIN,
    ] {
        let a = Amount::new(v);
        assert_eq!(parse_amount(&fmt_amount(a)).unwrap(), a);
    }
}

#[test]
fn amount_display_truncates_to_two_decimals() {
    assert_eq!(fmt_amount_display(Amount::new(1_050_000_000)), "1.05");
    assert_eq!(fmt_amount_display(Amount::new(1_239_999_999)), "1.23");
    assert_eq!(fmt_amount_display(Amount::new(-10_000_000_000)), "-10.00");
    assert_eq!(fmt_amount_display(Amount::new(0)), "0.00");
}

#[test]
fn date_parse_and_format() {
    assert_eq!(
        parse_date("2024-01-15"),
        Some(Date { year: 2024, month: 1, day: 15 })
    );
    assert_eq!(
        parse_date("2024-1-5"),
        Some(Date { year: 2024, month: 1, day: 5 })
    );
    assert_eq!(
        parse_date("0042-12-31"),
        Some(Date { year: 42, month: 12, day: 31 })
    );
    assert_eq!(fmt_date(Date { year: 2024, month: 1, day: 15 }), "2024-01-15");
    assert_eq!(fmt_date(Date { year: 42, month: 12, day: 31 }), "0042-12-31");
    let d = Date { year: 1999, month: 2, day: 28 };
    assert_eq!(parse_date(&fmt_date(d)), Some(d));
}

#[test]
fn date_parse_rejects() {
    assert_eq!(parse_date(""), None);
    assert_eq!(parse_date("2024-02-30"), None);
    assert_eq!(parse_date("2024-13-01"), None);
    assert_eq!(parse_date("2024-00-10"), None);
    assert_eq!(parse_date("2024-01-00"), None);
    assert_eq!(parse_date("0000-01-01"), None);
    assert_eq!(parse_date("24-01"), None);
    assert_eq!(parse_date("2024-01-15T10:30:00"), None);
    assert_eq!(parse_date("-2024-01-15"), None);
}

#[test]
fn date_leap_year_handling() {
    assert_eq!(
        parse_date("2024-02-29"),
        Some(Date { year: 2024, month: 2, day: 29 })
    );
    assert_eq!(parse_date("2023-02-29"), None);
    assert_eq!(parse_date("1900-02-29"), None);
    assert_eq!(
        parse_date("2000-02-29"),
        Some(Date { year: 2000, month: 2, day: 29 })
    );
}

#[test]
fn last_day_of_month_table() {
    let expected = [31, 28, 31, 30, 31, 30, 31, 31, 30, 31, 30, 31];
    for m in 1..=12u32 {
        assert_eq!(last_day_of_month(m), expected[(m - 1) as usize]);
    }
}

#[test]
fn interval_codes_round_trip() {
    for iv in [
        Interval::Daily,
        Interval::Weekly,
        Interval::Biweekly,
        Interval::Monthly,
    ] {
        assert_eq!(interval_from_string(iv.to_code()), Ok(iv));
    }
    assert_eq!(
        interval_from_string("daily".to_string()),
        Err(AccountError::InvalidIntervalCode)
    );
    assert_eq!(
        interval_from_string("Hourly".to_string()),
        Err(AccountError::InvalidIntervalCode)
    );
}

#[test]
fn transaction_round_trip_plain() {
    let t = Transaction::new(
        Date { year: 2024, month: 3, day: 7 },
        Amount::new(-12_345_678_901),
        "Groceries and more".to_string(),
        None,
        None,
    );
    let line = t.save_to_string();
    assert_eq!(line, "2024-03-07;-12.345678901;Groceries and more");
    let u = Transaction::load_from_string(line).unwrap();
    assert_eq!(u.date, t.date);
    assert_eq!(u.amount, t.amount);
    assert_eq!(u.description, t.description);
    assert_eq!(u.interval, None);
    assert_eq!(u.last_occurrence, None);
}

#[test]
fn transaction_round_trip_recurring() {
    let d = Date { year: 2023, month: 11, day: 30 };
    let t = Transaction::new(
        d,
        Amount::from_units(42),
        "salary".to_string(),
        Some(Interval::Monthly),
        Some(d),
    );
    let line = t.save_to_string();
    assert_eq!(line, "2023-11-30;42.000000000;salary;Monthly");
    let u = Transaction::load_from_string(line).unwrap();
    assert_eq!(u.date, d);
    assert_eq!(u.amount, t.amount);
    assert_eq!(u.description, "salary");
    assert_eq!(u.interval, Some(Interval::Monthly));
    // A freshly loaded recurring transaction is anchored at its stored
    // date.
    assert_eq!(u.last_occurrence, Some(d));
}

#[test]
fn transaction_parse_trims_description() {
    let u = Transaction::load_from_string("2024-01-01;1; padded out \t".to_string()).unwrap();
    assert_eq!(u.description, "padded out");
}

#[test]
fn transaction_parse_errors() {
    assert!(matches!(
        Transaction::load_from_string("2024-01-01;10.0".to_string()),
        Err(AccountError::MalformedRecord)
    ));
    assert!(matches!(
        Transaction::load_from_string("notadate;1;x".to_string()),
        Err(AccountError::InvalidDate)
    ));
    assert!(matches!(
        Transaction::load_from_string("2024-01-01;abc;x".to_string()),
        Err(AccountError::InvalidAmount)
    ));
    assert!(matches!(
        Transaction::load_from_string("2024-01-01;1;x;Hourly".to_string()),
        Err(AccountError::InvalidIntervalCode)
    ));
}

#[test]
fn transaction_display() {
    let t = Transaction::new(
        Date { year: 2024, month: 3, day: 7 },
        Amount::new(-12_349_999_999),
        "coffee".to_string(),
        None,
        None,
    );
    assert_eq!(t.display_string(), "-12.34 @ 2024-03-07: coffee");
}
