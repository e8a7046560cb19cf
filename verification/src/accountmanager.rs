//! Functionality over a collection of accounts: lookup by name, the
//! overall balance of an overview, and the expense and income totals of
//! one account within an optional time frame. Printing the results is
//! the surrounding layer's work.

use vstd::prelude::*;
use crate::account::{Account, AccountModel};
use crate::date::{days_in_month, Date};
use crate::text::str_eq;
use crate::transaction::TxModel;

verus! {

/// The images of a sequence of accounts.
pub open spec fn account_views(s: Seq<Account>) -> Seq<AccountModel> {
    s.map_values(|a: Account| a@)
}

/// The first account of the given name, if any.
pub fn find_account(accounts: &Vec<Account>, name: &str) -> (r: Option<usize>)
    ensures
        r matches Some(i) ==> i < accounts@.len() && account_views(accounts@)[i as int].name
            == name@ && forall|j: int|
            0 <= j < i ==> #[trigger] account_views(accounts@)[j].name != name@,
        r is None ==> forall|j: int|
            0 <= j < accounts@.len() ==> #[trigger] account_views(accounts@)[j].name != name@,
{
    let n = accounts.len();
    let mut i: usize = 0;
    while i < n
        invariant
            n == accounts@.len(),
            0 <= i <= n,
            forall|j: int| 0 <= j < i ==> #[trigger] account_views(accounts@)[j].name != name@,
        decreases n - i,
    {
        if str_eq(accounts[i].name.as_str(), name) {
            proof {
                assert(account_views(accounts@)[i as int] == accounts@[i as int]@);
            }
            return Some(i);
        }
        proof {
            assert(account_views(accounts@)[i as int] == accounts@[i as int]@);
        }
        i = i + 1;
    }
    None
}

/// Sum of the balances of an overview, watching for overflow of the
/// 128-bit accumulator at every step.
pub open spec fn spec_overall_balance(s: Seq<AccountModel>) -> Option<int>
    decreases s.len(),
{
    if s.len() == 0 {
        Some(0)
    } else {
        match spec_overall_balance(s.drop_last()) {
            None => None,
            Some(v) => if i128::MIN <= v + s.last().balance <= i128::MAX {
                Some(v + s.last().balance)
            } else {
                None
            },
        }
    }
}

/// Once a prefix of the overview overflows, every longer prefix does.
proof fn lemma_overall_balance_none(s: Seq<AccountModel>, k: int, m: int)
    requires
        0 <= k <= m <= s.len(),
        spec_overall_balance(s.take(k)) is None,
    ensures
        spec_overall_balance(s.take(m)) is None,
    decreases m - k,
{
    if k < m {
        assert(s.take(k + 1).drop_last() =~= s.take(k));
        lemma_overall_balance_none(s, k + 1, m);
    }
}

/// The overall balance across all accounts of an overview; `None` when
/// the sum leaves the accumulator's range.
pub fn overall_balance(accounts: &Vec<Account>) -> (r: Option<i128>)
    ensures
        r matches Some(v) ==> spec_overall_balance(account_views(accounts@)) == Some(v as int),
        r is None ==> spec_overall_balance(account_views(accounts@)) is None,
{
    let n = accounts.len();
    let mut acc: i128 = 0;
    let mut i: usize = 0;
    let ghost v = account_views(accounts@);
    proof {
        assert(v.take(0) =~= Seq::<AccountModel>::empty());
    }
    while i < n
        invariant
            n == accounts@.len(),
            v == account_views(accounts@),
            0 <= i <= n,
            spec_overall_balance(v.take(i as int)) == Some(acc as int),
        decreases n - i,
    {
        proof {
            assert(v.take(i + 1).drop_last() =~= v.take(i as int));
            assert(v.take(i + 1).last() == v[i as int]);
            assert(v[i as int] == accounts@[i as int]@);
        }
        acc = match acc.checked_add(accounts[i].balance) {
            Some(x) => x,
            None => {
                proof {
                    lemma_overall_balance_none(v, i + 1, n as int);
                    assert(v.take(n as int) =~= v);
                }
                return None;
            },
        };
        i = i + 1;
    }
    proof {
        assert(v.take(n as int) =~= v);
    }
    Some(acc)
}

/// Number of leap years in `1..=y`.
pub open spec fn leap_count(y: int) -> int {
    y / 4 - y / 100 + y / 400
}

/// Days of the months of year `y` before month `m`.
pub open spec fn days_before_month(y: int, m: int) -> int
    decreases (if m >= 1 {
        m
    } else {
        0
    }),
{
    if m <= 1 {
        0
    } else {
        days_before_month(y, m - 1) + days_in_month(y, m - 1)
    }
}

/// Days from the calendar's first day to a date: positions dates on a
/// common day scale so that a time frame of days can be applied.
pub open spec fn day_number(d: Date) -> int {
    365 * (d.year - 1) + leap_count(d.year - 1) + days_before_month(d.year as int, d.month as int)
        + d.day
}

/// Whether a transaction falls inside the time frame: either no frame
/// was asked for, or the transaction's date lies strictly after the day
/// `frame_days` before today.
pub open spec fn in_time_frame(t: TxModel, frame: Option<i64>, today: Date) -> bool {
    match frame {
        None => true,
        Some(days) => day_number(today) - days < day_number(t.date),
    }
}

/// Sum of the negative amounts within the time frame.
pub open spec fn spec_expenses(s: Seq<TxModel>, frame: Option<i64>, today: Date) -> int
    decreases s.len(),
{
    if s.len() == 0 {
        0
    } else {
        spec_expenses(s.drop_last(), frame, today) + (if in_time_frame(s.last(), frame, today)
            && s.last().amount < 0 {
            s.last().amount
        } else {
            0
        })
    }
}

/// Sum of the nonnegative amounts within the time frame.
pub open spec fn spec_income(s: Seq<TxModel>, frame: Option<i64>, today: Date) -> int
    decreases s.len(),
{
    if s.len() == 0 {
        0
    } else {
        spec_income(s.drop_last(), frame, today) + (if in_time_frame(s.last(), frame, today)
            && s.last().amount >= 0 {
            s.last().amount
        } else {
            0
        })
    }
}

proof fn lemma_totals_bounded(s: Seq<TxModel>, frame: Option<i64>, today: Date)
    requires
        forall|i: int|
            0 <= i < s.len() ==> i64::MIN <= #[trigger] s[i].amount && s[i].amount <= i64::MAX,
    ensures
        -(s.len() as int) * 0x8000000000000000 <= spec_expenses(s, frame, today) <= 0,
        0 <= spec_income(s, frame, today) <= (s.len() as int) * 0x7fffffffffffffff,
    decreases s.len(),
{
    if s.len() > 0 {
        assert(forall|i: int| 0 <= i < s.len() - 1 ==> #[trigger] s.drop_last()[i] == s[i]);
        lemma_totals_bounded(s.drop_last(), frame, today);
    }
}

/// Days from the calendar's first day to a date.
pub fn day_number_of(d: Date) -> (r: i128)
    requires
        d.year >= 1,
        d.year <= 10000,
        1 <= d.month <= 12,
        d.day <= 31,
    ensures
        r as int == day_number(d),
        -100000 <= r <= 4000000,
{
    let y: i128 = d.year as i128;
    let leaps: i128 = (y - 1) / 4 - (y - 1) / 100 + (y - 1) / 400;
    let mut before: i128 = 0;
    let mut m: u32 = 1;
    while m < d.month
        invariant
            1 <= m <= d.month <= 12,
            before == days_before_month(d.year as int, m as int),
            0 <= before <= 31 * (m - 1),
        decreases d.month - m,
    {
        let dim = crate::date::month_length(d.year, m);
        before = before + dim as i128;
        m = m + 1;
    }
    proof {
        assert(leaps == leap_count(d.year - 1));
    }
    365 * (y - 1) + leaps + before + d.day as i128
}

/// Expense and income totals of one account, counted over the
/// transactions that fall inside the time frame (all of them when no
/// frame is given). Expenses are the negative amounts, income the rest.
#[verifier::loop_isolation(false)]
pub fn account_totals(account: &Account, frame: Option<i64>, today: Date) -> (r: (i128, i128))
    requires
        crate::date::date_storable(today),
        forall|i: int|
            0 <= i < account@.transactions.len() ==> crate::date::date_valid(
                #[trigger] account@.transactions[i].date,
            ),
    ensures
        r.0 == spec_expenses(account@.transactions, frame, today),
        r.1 == spec_income(account@.transactions, frame, today),
{
    let mut expenses: i128 = 0;
    let mut income: i128 = 0;
    let n = account.transactions.len();
    let mut i: usize = 0;
    let ghost v = account@.transactions;
    proof {
        crate::account::lemma_views_amount_bounded(account.transactions@);
        assert(v.take(0) =~= Seq::<TxModel>::empty());
    }
    let today_num = day_number_of(today);
    while i < n
        invariant
            0 <= i <= n,
            expenses == spec_expenses(v.take(i as int), frame, today),
            income == spec_income(v.take(i as int), frame, today),
        decreases n - i,
    {
        proof {
            assert(v.take(i + 1).drop_last() =~= v.take(i as int));
            assert(v.take(i + 1).last() == v[i as int]);
            assert(v[i as int] == account.transactions@[i as int]@);
            assert(forall|k: int| 0 <= k < i ==> #[trigger] v.take(i as int)[k] == v[k]);
            lemma_totals_bounded(v.take(i as int), frame, today);
        }
        proof {
            assert(crate::date::date_valid(v[i as int].date));
        }
        let tx = &account.transactions[i];
        let inside: bool = match frame {
            None => true,
            Some(days) => {
                let txn = day_number_of(tx.date);
                today_num - (days as i128) < txn
            },
        };
        if inside {
            if tx.amount.nanos < 0 {
                expenses = expenses + tx.amount.nanos as i128;
            } else {
                income = income + tx.amount.nanos as i128;
            }
        }
        i = i + 1;
    }
    proof {
        assert(v.take(n as int) =~= v);
    }
    (expenses, income)
}

}
