use wallet::account::{Account, AccountError};
use wallet::accountmanager::{account_totals, find_account, overall_balance};
use wallet::amount::{Amount, AMOUNT_SCALE};
use wallet::arguments::{AccountArgs, Args};
use wallet::category::{Category, CategorySequence};
use wallet::commands::{Got, New, SetBalance, Spent};
use wallet::date::{sub_days, today, Date};
use wallet::interval::Interval;
use wallet::transaction::Transaction;

const SCALE: i128 = AMOUNT_SCALE as i128;

#[test]
fn overdraft_denied_on_empty_account() {
    let mut a = Account::create("Checking".to_string(), "daily".to_string(), false);
    let r = a.spent(Amount::from_units(10), "x".to_string());
    match r {
        Err(AccountError::NoOverdraw(name)) => assert_eq!(name, "Checking"),
        _ => panic!("expected the overdraw denial"),
    }
    assert_eq!(a.transactions.len(), 0);
    assert_eq!(a.balance, 0);
}

#[test]
fn overdraft_bypass_with_policy() {
    let mut a = Account::create("Checking".to_string(), "daily".to_string(), true);
    a.spent(Amount::from_units(10), "x".to_string()).unwrap();
    assert_eq!(a.balance, -10 * SCALE);
    assert_eq!(a.transactions.len(), 1);
}

#[test]
fn spent_normalizes_positive_amounts() {
    let mut a = Account::create("A".to_string(), "d".to_string(), false);
    a.got(Amount::from_units(50), "income".to_string());
    a.spent(Amount::from_units(20), "expense".to_string()).unwrap();
    assert_eq!(a.balance, 30 * SCALE);
    assert_eq!(a.transactions[1].amount, Amount::from_units(-20));
}

#[test]
fn spent_within_balance_succeeds_without_policy() {
    let mut a = Account::create("A".to_string(), "d".to_string(), false);
    a.got(Amount::from_units(10), "income".to_string());
    a.spent(Amount::from_units(10), "all of it".to_string()).unwrap();
    assert_eq!(a.balance, 0);
}

#[test]
fn got_keeps_amount_as_given() {
    let mut a = Account::create("A".to_string(), "d".to_string(), false);
    a.got(Amount::from_units(-3), "correction".to_string());
    assert_eq!(a.balance, -3 * SCALE);
    assert_eq!(a.transactions[0].amount, Amount::from_units(-3));
}

#[test]
fn set_reaches_target_exactly() {
    let mut a = Account::create("A".to_string(), "d".to_string(), false);
    a.got(Amount::from_units(50), "income".to_string());
    a.set(Amount::from_units(20), "adjust".to_string()).unwrap();
    assert_eq!(a.balance, 20 * SCALE);
    assert_eq!(a.transactions.len(), 2);
    assert_eq!(a.transactions[1].amount, Amount::from_units(-30));
    a.set(Amount::from_units(45), "adjust up".to_string()).unwrap();
    assert_eq!(a.balance, 45 * SCALE);
}

#[test]
fn set_respects_overdraw_policy() {
    let mut a = Account::create("A".to_string(), "d".to_string(), false);
    let r = a.set(Amount::from_units(-5), "below zero".to_string());
    assert!(matches!(r, Err(AccountError::NoOverdraw(_))));
    assert_eq!(a.balance, 0);
    assert_eq!(a.transactions.len(), 0);

    let mut b = Account::create("B".to_string(), "d".to_string(), true);
    b.set(Amount::from_units(-5), "below zero".to_string()).unwrap();
    assert_eq!(b.balance, -5 * SCALE);
}

#[test]
fn set_rejects_adjustment_no_amount_can_carry() {
    let now = today();
    let mut a = Account::create("Deep".to_string(), "d".to_string(), true);
    a.got_on(Amount::new(i64::MIN), "first".to_string(), now);
    a.got_on(Amount::new(i64::MIN), "second".to_string(), now);
    assert_eq!(a.balance, 2 * (i64::MIN as i128));
    let r = a.set(Amount::from_units(0), "back to zero".to_string());
    assert_eq!(r, Err(AccountError::AmountOutOfRange));
    assert_eq!(a.transactions.len(), 2);
    assert_eq!(a.balance, 2 * (i64::MIN as i128));
}

#[test]
fn no_negative_catch_up() {
    let now = today();
    let mut t = Transaction::new(
        now,
        Amount::from_units(1),
        "future".to_string(),
        Some(Interval::Daily),
        Some(now),
    );
    let mut ts: Vec<Transaction> = Vec::new();
    t.update(&mut ts, now);
    assert_eq!(ts.len(), 0);
    assert_eq!(t.last_occurrence, Some(now));
}

#[test]
fn balance_is_sum_of_all_loaded_transactions() {
    let now = today();
    let anchor = sub_days(now, 3);
    let mut a = Account::new(
        "Sums".to_string(),
        "check the invariant".to_string(),
        "sums.finance".to_string(),
        0,
        true,
        Vec::new(),
    );
    a.transactions.push(Transaction::new(
        anchor,
        Amount::from_units(7),
        "recurring income".to_string(),
        Some(Interval::Daily),
        Some(anchor),
    ));
    a.transactions.push(Transaction::new(
        anchor,
        Amount::from_units(-4),
        "one-off".to_string(),
        None,
        None,
    ));
    let content = a.save();
    let b = Account::load_at(&content, "sums.finance".to_string(), now).unwrap();
    // Two synthesized occurrences of 7, the template, and the one-off.
    assert_eq!(b.transactions.len(), 4);
    let total: i128 = b.transactions.iter().map(|t| t.amount.nanos as i128).sum();
    assert_eq!(b.balance, total);
    assert_eq!(b.balance, (7 + 7 + 7 - 4) * SCALE);
}

#[test]
fn load_header_errors() {
    let now = today();
    let r = Account::load_at("onlyname", "p".to_string(), now);
    assert!(matches!(r, Err(AccountError::MalformedRecord)));
    let r = Account::load_at("name;maybe;desc", "p".to_string(), now);
    assert!(matches!(r, Err(AccountError::MalformedRecord)));
    let r = Account::load_at("", "p".to_string(), now);
    assert!(matches!(r, Err(AccountError::MalformedRecord)));
}

#[test]
fn load_propagates_first_bad_line() {
    let now = today();
    let content = "A;false;d\n2024-01-01;1;ok\n2024-01-01;bad;x\n";
    let r = Account::load_at(content, "p".to_string(), now);
    assert!(matches!(r, Err(AccountError::InvalidAmount)));
}

#[test]
fn load_skips_blank_lines() {
    let now = today();
    let content = "A;false;d\n\n2024-01-01;2.5;ok\n\n";
    let b = Account::load_at(content, "p".to_string(), now).unwrap();
    assert_eq!(b.transactions.len(), 1);
    assert_eq!(b.balance, 5 * SCALE / 2);
}

#[test]
fn same_day_load_is_deterministic() {
    let now = today();
    let anchor = sub_days(now, 5);
    let mut a = Account::new(
        "Twice".to_string(),
        "same day".to_string(),
        "twice.finance".to_string(),
        0,
        false,
        Vec::new(),
    );
    a.transactions.push(Transaction::new(
        anchor,
        Amount::from_units(1),
        "recurring".to_string(),
        Some(Interval::Daily),
        Some(anchor),
    ));
    let content = a.save();
    let first = Account::load_at(&content, "twice.finance".to_string(), now).unwrap();
    let second = Account::load_at(&content, "twice.finance".to_string(), now).unwrap();
    assert_eq!(first.transactions.len(), second.transactions.len());
    assert_eq!(first.balance, second.balance);
}

#[test]
fn create_derives_backing_file_name() {
    let a = Account::create("My Account".to_string(), "d".to_string(), false);
    assert_eq!(a.filepath().as_str(), ".my_account.finance");
    let b = Account::create("SHOUTY".to_string(), "d".to_string(), false);
    assert_eq!(b.filepath().as_str(), ".shouty.finance");
}

#[test]
fn save_writes_header_and_lines() {
    let mut a = Account::create("A".to_string(), "plain".to_string(), true);
    a.transactions.push(Transaction::new(
        Date { year: 2024, month: 1, day: 2 },
        Amount::from_units(-3),
        "x".to_string(),
        None,
        None,
    ));
    a.balance = -3 * SCALE;
    assert_eq!(a.save(), "A;true;plain\n2024-01-02;-3.000000000;x\n");
}

#[test]
fn account_display() {
    let mut a = Account::create("A".to_string(), "plain".to_string(), true);
    a.got(Amount::new(1_505_000_000), "x".to_string());
    assert_eq!(a.display_string(), "A(1.50): plain");
}

#[test]
fn error_messages() {
    assert_eq!(
        AccountError::NoOverdraw("A".to_string()).message(),
        "Cannot overdraw A"
    );
    assert_eq!(
        AccountError::InvalidIntervalCode.message(),
        "invalid interval flag stored"
    );
    assert_eq!(
        AccountError::MalformedRecord.message(),
        "stored record needs at least 3 fields"
    );
}

#[test]
fn find_account_by_name() {
    let accounts = vec![
        Account::create("one".to_string(), "d".to_string(), false),
        Account::create("two".to_string(), "d".to_string(), false),
    ];
    assert_eq!(find_account(&accounts, "two"), Some(1));
    assert_eq!(find_account(&accounts, "one"), Some(0));
    assert_eq!(find_account(&accounts, "three"), None);
}

#[test]
fn overall_balance_sums_accounts() {
    let mut one = Account::create("one".to_string(), "d".to_string(), false);
    one.got(Amount::from_units(5), "x".to_string());
    let mut two = Account::create("two".to_string(), "d".to_string(), true);
    two.spent(Amount::from_units(2), "y".to_string()).unwrap();
    let accounts = vec![one, two];
    assert_eq!(overall_balance(&accounts), Some(3 * SCALE));
}

#[test]
fn totals_respect_time_frame() {
    let now = today();
    let old = sub_days(now, 10);
    let mut a = Account::create("A".to_string(), "d".to_string(), true);
    a.got_on(Amount::from_units(5), "recent income".to_string(), now);
    a.spent_on(Amount::from_units(2), "recent expense".to_string(), now)
        .unwrap();
    a.got_on(Amount::from_units(100), "old income".to_string(), old);
    let (expenses, income) = account_totals(&a, None, now);
    assert_eq!(expenses, -2 * SCALE);
    assert_eq!(income, 105 * SCALE);
    let (expenses, income) = account_totals(&a, Some(5), now);
    assert_eq!(expenses, -2 * SCALE);
    assert_eq!(income, 5 * SCALE);
}

#[test]
fn account_args_with_amount() {
    let a = AccountArgs::from_string("12.5 Main account".to_string()).unwrap();
    assert_eq!(a.amount, Some(Amount::new(12_500_000_000)));
    assert_eq!(a.name, "Main account");
}

#[test]
fn account_args_without_amount() {
    let a = AccountArgs::from_string("Main account".to_string()).unwrap();
    assert_eq!(a.amount, None);
    assert_eq!(a.name, "Main account");
}

#[test]
fn commands_validate_their_options() {
    let args = Args {
        cmd: "new".to_string(),
        account: Some("fresh".to_string()),
        amount: None,
        description: "No description".to_string(),
        can_overdraw: false,
    };
    let a = New {}.execute(&args).unwrap();
    assert_eq!(a.name, "fresh");
    assert_eq!(a.balance, 0);

    let no_name = Args { account: None, ..args };
    assert!(matches!(
        New {}.execute(&no_name),
        Err(AccountError::MissingOptions(_))
    ));

    let mut acct = Account::create("fresh".to_string(), "d".to_string(), true);
    let spend_args = Args {
        cmd: "spent".to_string(),
        account: Some("fresh".to_string()),
        amount: Some(Amount::from_units(4)),
        description: "No description".to_string(),
        can_overdraw: false,
    };
    Spent {}.execute(&mut acct, &spend_args).unwrap();
    assert_eq!(acct.balance, -4 * SCALE);
    Got {}.execute(&mut acct, &spend_args).unwrap();
    assert_eq!(acct.balance, 0);
    SetBalance {}.execute(&mut acct, &spend_args).unwrap();
    assert_eq!(acct.balance, 4 * SCALE);

    let no_amount = Args { amount: None, ..spend_args };
    assert!(matches!(
        Spent {}.execute(&mut acct, &no_amount),
        Err(AccountError::MissingOptions(_))
    ));
    assert!(matches!(
        Got {}.execute(&mut acct, &no_amount),
        Err(AccountError::MissingOptions(_))
    ));
    assert!(matches!(
        SetBalance {}.execute(&mut acct, &no_amount),
        Err(AccountError::MissingOptions(_))
    ));
    assert_eq!(acct.balance, 4 * SCALE);
}

#[test]
fn category_sequence_hands_out_consecutive_ids() {
    let mut seq = CategorySequence::new();
    let first = Category::new(seq.fresh(), "food".to_string(), "meals".to_string());
    let second = Category::new(seq.fresh(), "rent".to_string(), "housing".to_string());
    assert_eq!(first.ID, 1);
    assert_eq!(second.ID, 2);
    assert_eq!(first.display_string(), "food: meals");
}

#[test]
fn today_is_a_plausible_date() {
    let d = today();
    assert!((1..=9999).contains(&d.year));
    assert!((1..=12).contains(&d.month));
    assert!((1..=31).contains(&d.day));
}
