use wallet::account::Account;
use wallet::amount::Amount;
use wallet::date::{sub_days, today, Date};
use wallet::interval::Interval;
use wallet::transaction::Transaction;

fn test_account(path: &str) -> Account {
    Account::new(
        "Testaccount".to_string(),
        "An account for testing.".to_string(),
        path.to_string(),
        0,
        false,
        Vec::new(),
    )
}

#[test]
fn recurrence_daily_a_day_ago() {
    let p = "test_daily_one.finance".to_string();
    let mut a = test_account(&p);
    let now = today();
    let anchor = sub_days(now, 1);
    let t = Transaction::new(
        anchor,
        Amount::from_units(1),
        "Test recurrence".to_string(),
        Some(Interval::Daily),
        Some(anchor),
    );
    a.transactions.push(t);
    let content = a.save();

    let b = Account::load_at(&content, p, now).unwrap();
    // The loaded template's next occurrence is today itself, which is not
    // strictly before today: nothing is synthesized, the log holds the
    // template alone.
    assert_eq!(b.transactions.len(), 1);
}

#[test]
fn recurrence_daily_a_week_ago() {
    let p = "test_daily_seven.finance".to_string();
    let mut a = test_account(&p);
    let now = today();
    let anchor = sub_days(now, 7);
    let t = Transaction::new(
        anchor,
        Amount::from_units(1),
        "Test recurrence".to_string(),
        Some(Interval::Daily),
        Some(anchor),
    );
    a.transactions.push(t);
    let content = a.save();

    let b = Account::load_at(&content, p, now).unwrap();
    // Six synthesized occurrences, days -6 through -1, next to the
    // template itself.
    assert_eq!(b.transactions.len(), 7);
    let synthesized = b
        .transactions
        .iter()
        .filter(|t| t.interval.is_none())
        .count();
    assert_eq!(synthesized, 6);
}

#[test]
fn recurrence_weekly_a_week_ago() {
    let p = "test_weekly_seven.finance".to_string();
    let mut a = test_account(&p);
    let now = today();
    let anchor = sub_days(now, 7);
    let t = Transaction::new(
        anchor,
        Amount::from_units(1),
        "Test recurrence".to_string(),
        Some(Interval::Weekly),
        Some(anchor),
    );
    a.transactions.push(t);
    let content = a.save();

    let b = Account::load_at(&content, p, now).unwrap();
    // The next weekly occurrence is today itself: nothing synthesized.
    assert_eq!(b.transactions.len(), 1);
}

#[test]
fn update_daily_counts_and_anchor() {
    let now = today();
    let anchor = sub_days(now, 7);
    let mut t = Transaction::new(
        anchor,
        Amount::from_units(2),
        "lunch".to_string(),
        Some(Interval::Daily),
        Some(anchor),
    );
    let mut ts: Vec<Transaction> = Vec::new();
    t.update(&mut ts, now);
    assert_eq!(ts.len(), 6);
    assert_eq!(t.last_occurrence, Some(now));
    for occ in &ts {
        assert_eq!(occ.amount, Amount::from_units(2));
        assert_eq!(occ.description, "lunch");
        assert!(occ.interval.is_none());
        assert!(occ.last_occurrence.is_none());
    }
}

#[test]
fn update_daily_one_day_no_occurrence() {
    let now = today();
    let anchor = sub_days(now, 1);
    let mut t = Transaction::new(
        anchor,
        Amount::from_units(1),
        "rent".to_string(),
        Some(Interval::Daily),
        Some(anchor),
    );
    let mut ts: Vec<Transaction> = Vec::new();
    t.update(&mut ts, now);
    assert_eq!(ts.len(), 0);
    assert_eq!(t.last_occurrence, Some(now));
}

#[test]
fn update_weekly_one_week_no_occurrence() {
    let now = today();
    let anchor = sub_days(now, 7);
    let mut t = Transaction::new(
        anchor,
        Amount::from_units(1),
        "salary".to_string(),
        Some(Interval::Weekly),
        Some(anchor),
    );
    let mut ts: Vec<Transaction> = Vec::new();
    t.update(&mut ts, now);
    assert_eq!(ts.len(), 0);
    assert_eq!(t.last_occurrence, Some(now));
}

#[test]
fn update_biweekly_month_gap() {
    let anchor = Date { year: 2024, month: 1, day: 1 };
    let now = Date { year: 2024, month: 2, day: 1 };
    let mut t = Transaction::new(
        anchor,
        Amount::from_units(3),
        "allowance".to_string(),
        Some(Interval::Biweekly),
        Some(anchor),
    );
    let mut ts: Vec<Transaction> = Vec::new();
    t.update(&mut ts, now);
    // Jan 15 and Jan 29 fall before Feb 1; Feb 12 does not.
    assert_eq!(ts.len(), 2);
    assert_eq!(ts[0].date, Date { year: 2024, month: 1, day: 15 });
    assert_eq!(ts[1].date, Date { year: 2024, month: 1, day: 29 });
    assert_eq!(t.last_occurrence, Some(Date { year: 2024, month: 2, day: 12 }));
}

#[test]
fn update_monthly_clamps_to_month_end() {
    // A January 31 anchor advances to February 28: the last day of the
    // month stays the last day, without consulting leap years.
    let anchor = Date { year: 2023, month: 1, day: 31 };
    let now = Date { year: 2023, month: 3, day: 1 };
    let mut t = Transaction::new(
        anchor,
        Amount::from_units(5),
        "subscription".to_string(),
        Some(Interval::Monthly),
        Some(anchor),
    );
    let mut ts: Vec<Transaction> = Vec::new();
    t.update(&mut ts, now);
    assert_eq!(ts.len(), 1);
    assert_eq!(ts[0].date, Date { year: 2023, month: 2, day: 28 });
    assert_eq!(t.last_occurrence, Some(Date { year: 2023, month: 3, day: 31 }));
}

#[test]
fn update_without_interval_changes_nothing() {
    let now = today();
    let d = sub_days(now, 3);
    let mut t = Transaction::new(d, Amount::from_units(1), "plain".to_string(), None, None);
    let mut ts: Vec<Transaction> = Vec::new();
    t.update(&mut ts, now);
    assert_eq!(ts.len(), 0);
    assert!(t.last_occurrence.is_none());
}

#[test]
fn update_twice_same_day_synthesizes_once() {
    let now = today();
    let anchor = sub_days(now, 5);
    let mut t = Transaction::new(
        anchor,
        Amount::from_units(1),
        "repeat".to_string(),
        Some(Interval::Daily),
        Some(anchor),
    );
    let mut ts: Vec<Transaction> = Vec::new();
    t.update(&mut ts, now);
    let after_first = ts.len();
    t.update(&mut ts, now);
    assert_eq!(ts.len(), after_first);
}
