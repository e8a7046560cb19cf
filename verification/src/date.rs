//! Civil dates for the ledger. Transactions carry a calendar date with
//! day resolution, compared as a UTC-equivalent civil date; the current
//! date comes from chrono behind a trusted wrapper, and all date
//! arithmetic is done here on plain year/month/day values.

use vstd::prelude::*;
use crate::text::{
    all_digits, dec_digits, digits_val, fmt_u64_padded, has_char, is_digit_char,
    lemma_all_digits_no_char, lemma_dec_digits_len, lemma_digits_val_bound, lemma_has_char_concat,
    lemma_pow10_values, lemma_split_concat, lemma_split_no_sep, lemma_zero_pad_props, split_chars,
    split_str, zero_pad,
};

verus! {

/// A civil date: year, month (1 to 12) and day of month (1-based).
#[derive(Clone, Copy, PartialEq, Eq, Structural, Debug)]
pub struct Date {
    pub year: u32,
    pub month: u32,
    pub day: u32,
}

/// Gregorian leap-year rule, used for day-level date arithmetic.
pub open spec fn is_leap_year(y: int) -> bool {
    y % 4 == 0 && (y % 100 != 0 || y % 400 == 0)
}

/// Length of a month in the Gregorian calendar.
pub open spec fn days_in_month(y: int, m: int) -> int {
    if m == 2 {
        if is_leap_year(y) {
            29
        } else {
            28
        }
    } else if m == 4 || m == 6 || m == 9 || m == 11 {
        30
    } else {
        31
    }
}

/// Last day of a month as the recurrence engine sees it: February is
/// always 28, leap years are deliberately not consulted here.
pub open spec fn last_day_spec(m: int) -> int {
    if m == 2 {
        28
    } else if m <= 7 && m % 2 == 1 {
        31
    } else if m <= 7 && m % 2 == 0 {
        30
    } else if m > 7 && m % 2 == 0 {
        31
    } else {
        30
    }
}

/// A meaningful calendar date. Year 10000 is allowed as headroom for a
/// recurrence anchor that has just been advanced past the last storable
/// year.
pub open spec fn date_valid(d: Date) -> bool {
    1 <= d.year <= 10000 && 1 <= d.month <= 12 && 1 <= d.day <= days_in_month(
        d.year as int,
        d.month as int,
    )
}

/// A date that the line format can carry: at most four year digits.
pub open spec fn date_storable(d: Date) -> bool {
    date_valid(d) && d.year <= 9999
}

/// Order-preserving embedding of valid dates into the integers.
pub open spec fn date_idx(d: Date) -> int {
    d.year * 372 + (d.month - 1) * 31 + d.day
}

/// Strictly earlier, on civil dates.
pub open spec fn date_lt(a: Date, b: Date) -> bool {
    date_idx(a) < date_idx(b)
}

/// The next calendar day.
pub open spec fn date_succ_spec(d: Date) -> Date {
    if d.day < days_in_month(d.year as int, d.month as int) {
        Date { year: d.year, month: d.month, day: (d.day + 1) as u32 }
    } else if d.month < 12 {
        Date { year: d.year, month: (d.month + 1) as u32, day: 1 }
    } else {
        Date { year: (d.year + 1) as u32, month: 1, day: 1 }
    }
}

/// `n` calendar days later.
pub open spec fn date_add_days_spec(d: Date, n: nat) -> Date
    decreases n,
{
    if n == 0 {
        d
    } else {
        date_add_days_spec(date_succ_spec(d), (n - 1) as nat)
    }
}

/// The same day of the next month, clamped to the next month's last
/// day: an anchor on its month's last day stays on the last day, and a
/// day the next month does not have is pulled back to that month's end.
/// Month lengths here come from `last_day_spec`, so leap years are not
/// consulted; this mirrors the recurrence rule of the ledger.
pub open spec fn date_next_month_spec(d: Date) -> Date {
    let m2: int = if d.month == 12 {
        1
    } else {
        d.month + 1
    };
    let y2: int = if d.month == 12 {
        d.year + 1
    } else {
        d.year as int
    };
    let t: int = if d.day == last_day_spec(d.month as int) {
        last_day_spec(m2)
    } else {
        d.day as int
    };
    let day2: int = if t > last_day_spec(m2) {
        last_day_spec(m2)
    } else {
        t
    };
    Date { year: y2 as u32, month: m2 as u32, day: day2 as u32 }
}

/// Canonical text form of a date: zero-padded `YYYY-MM-DD`.
pub open spec fn fmt_date_chars(d: Date) -> Seq<char> {
    zero_pad(d.year as nat, 4) + seq!['-'] + zero_pad(d.month as nat, 2) + seq!['-'] + zero_pad(
        d.day as nat,
        2,
    )
}

/// Dates accepted by the parser: three runs of digits around `-`, with
/// at most four year digits and two digits for month and day, naming a
/// valid storable date.
pub open spec fn spec_parse_date(s: Seq<char>) -> Option<Date> {
    let fs = split_chars(s, '-');
    if fs.len() == 3 && 1 <= fs[0].len() <= 4 && all_digits(fs[0]) && 1 <= fs[1].len() <= 2
        && all_digits(fs[1]) && 1 <= fs[2].len() <= 2 && all_digits(fs[2]) {
        let d = Date {
            year: digits_val(fs[0]) as u32,
            month: digits_val(fs[1]) as u32,
            day: digits_val(fs[2]) as u32,
        };
        if date_storable(d) {
            Some(d)
        } else {
            None
        }
    } else {
        None
    }
}

pub proof fn lemma_succ_valid(d: Date)
    requires
        date_valid(d),
        !(d.year == 10000 && d.month == 12 && d.day == 31),
    ensures
        date_valid(date_succ_spec(d)),
        date_idx(d) < date_idx(date_succ_spec(d)),
        date_idx(date_succ_spec(d)) <= date_idx(d) + 4,
{
}

pub proof fn lemma_next_month_valid(d: Date)
    requires
        date_valid(d),
        d.year <= 9999,
    ensures
        date_valid(date_next_month_spec(d)),
        date_idx(d) < date_idx(date_next_month_spec(d)),
{
}

/// Last day of a month by its number alone; February counts 28 days and
/// leap years are not taken into account. Any other value, zero among
/// them, falls back to 30 or 31 by parity.
pub fn last_day_of_month(month: u32) -> (r: u32)
    ensures
        r as int == last_day_spec(month as int),
{
    let remainder = month % 2;
    if month == 2 {
        return 28;
    }
    if month <= 7 && remainder == 1 {
        return 31;
    }
    if month <= 7 && remainder == 0 {
        return 30;
    }
    if month > 7 && remainder == 0 {
        return 31;
    } else {
        return 30;
    }
}

/// Gregorian month length.
pub fn month_length(year: u32, month: u32) -> (r: u32)
    requires
        1 <= month <= 12,
    ensures
        r as int == days_in_month(year as int, month as int),
{
    if month == 2 {
        if year % 4 == 0 && (year % 100 != 0 || year % 400 == 0) {
            29
        } else {
            28
        }
    } else if month == 4 || month == 6 || month == 9 || month == 11 {
        30
    } else {
        31
    }
}

/// Whether a date is meaningful, decided at run time; callers at the
/// storage boundary use it to guard what they hand the ledger.
pub fn check_date(d: Date) -> (r: bool)
    ensures
        r == date_valid(d),
{
    d.year >= 1 && d.year <= 10000 && d.month >= 1 && d.month <= 12 && d.day >= 1 && d.day
        <= month_length(d.year, d.month)
}

/// Whether a date fits the stored format, decided at run time.
pub fn check_storable(d: Date) -> (r: bool)
    ensures
        r == date_storable(d),
{
    check_date(d) && d.year <= 9999
}

/// Strictly-earlier test on civil dates.
pub fn date_before(a: Date, b: Date) -> (r: bool)
    requires
        date_valid(a),
        date_valid(b),
    ensures
        r == date_lt(a, b),
{
    let ai: u64 = a.year as u64 * 372 + (a.month as u64 - 1) * 31 + a.day as u64;
    let bi: u64 = b.year as u64 * 372 + (b.month as u64 - 1) * 31 + b.day as u64;
    ai < bi
}

/// The next calendar day.
pub fn date_succ(d: Date) -> (r: Date)
    requires
        date_valid(d),
        !(d.year == 10000 && d.month == 12 && d.day == 31),
    ensures
        r == date_succ_spec(d),
        date_valid(r),
{
    proof {
        lemma_succ_valid(d);
    }
    let dim = month_length(d.year, d.month);
    if d.day < dim {
        Date { year: d.year, month: d.month, day: d.day + 1 }
    } else if d.month < 12 {
        Date { year: d.year, month: d.month + 1, day: 1 }
    } else {
        Date { year: d.year + 1, month: 1, day: 1 }
    }
}

/// `n` days later, for the small steps of the recurrence engine.
pub fn add_days(d: Date, n: u64) -> (r: Date)
    requires
        date_storable(d),
        n <= 14,
    ensures
        r == date_add_days_spec(d, n as nat),
        date_valid(r),
{
    let mut cur = d;
    let mut k: u64 = 0;
    while k < n
        invariant
            0 <= k <= n,
            n <= 14,
            date_valid(cur),
            cur == date_add_days_spec(d, k as nat),
            cur.year <= 9999 || (cur.year == 10000 && cur.month == 1 && cur.day <= 1 + k),
        decreases n - k,
    {
        proof {
            lemma_add_days_unfold(d, k as nat);
        }
        cur = date_succ(cur);
        k = k + 1;
    }
    cur
}

/// Unrolls one step of `date_add_days_spec` from the right.
pub proof fn lemma_add_days_unfold(d: Date, k: nat)
    ensures
        date_add_days_spec(d, k + 1) == date_succ_spec(date_add_days_spec(d, k)),
    decreases k,
{
    if k == 0 {
        assert(date_add_days_spec(d, 1) == date_add_days_spec(date_succ_spec(d), 0));
    } else {
        lemma_add_days_unfold(date_succ_spec(d), (k - 1) as nat);
    }
}

/// Iterated `succ` from a storable date stays valid for the small steps
/// of the recurrence engine and strictly advances the date.
pub proof fn lemma_add_days_step(d: Date, n: nat)
    requires
        date_storable(d),
        n <= 14,
    ensures
        date_valid(date_add_days_spec(d, n)),
        date_idx(date_add_days_spec(d, n)) >= date_idx(d) + n,
        date_add_days_spec(d, n).year <= 9999 || (date_add_days_spec(d, n).year == 10000
            && date_add_days_spec(d, n).month == 1 && date_add_days_spec(d, n).day <= 1 + n),
    decreases n,
{
    if n > 0 {
        lemma_add_days_step(d, (n - 1) as nat);
        lemma_add_days_unfold(d, (n - 1) as nat);
        let p = date_add_days_spec(d, (n - 1) as nat);
        lemma_succ_valid(p);
    }
}

/// `succ` never lowers the year while years stay below the `u32` cap,
/// so an iterated `succ` cannot come back down into the storable range
/// once it has left it.
pub proof fn lemma_add_days_year_lower(d: Date, n: nat)
    requires
        1 <= d.year,
        d.year + n < 4294967296,
    ensures
        d.year <= date_add_days_spec(d, n).year <= d.year + n,
    decreases n,
{
    if n > 0 {
        let s = date_succ_spec(d);
        assert(d.year <= s.year <= d.year + 1);
        lemma_add_days_year_lower(s, (n - 1) as nat);
    }
}

/// A valid date strictly before a storable date is itself storable.
pub proof fn lemma_lt_storable(a: Date, b: Date)
    requires
        date_valid(a),
        date_storable(b),
        date_lt(a, b),
    ensures
        date_storable(a),
{
    if a.year > b.year {
        assert(date_idx(a) >= a.year * 372 + 1);
        assert(date_idx(b) <= b.year * 372 + 11 * 31 + 31);
    }
}

/// The previous calendar day.
pub open spec fn date_pred_spec(d: Date) -> Date {
    if d.day > 1 {
        Date { year: d.year, month: d.month, day: (d.day - 1) as u32 }
    } else if d.month > 1 {
        Date {
            year: d.year,
            month: (d.month - 1) as u32,
            day: days_in_month(d.year as int, d.month - 1) as u32,
        }
    } else {
        Date { year: (d.year - 1) as u32, month: 12, day: 31 }
    }
}

pub proof fn lemma_pred_props(d: Date)
    requires
        date_valid(d),
        !(d.year == 1 && d.month == 1 && d.day == 1),
    ensures
        date_valid(date_pred_spec(d)),
        date_succ_spec(date_pred_spec(d)) == d,
        date_idx(d) - 4 <= date_idx(date_pred_spec(d)) < date_idx(d),
{
}

/// `n` days earlier. The date must leave enough room to walk back.
pub fn sub_days(d: Date, n: u64) -> (r: Date)
    requires
        date_storable(d),
        5 <= d.year,
        n <= 366,
    ensures
        date_valid(r),
        date_storable(r),
        date_add_days_spec(r, n as nat) == d,
{
    let mut cur = d;
    let mut k: u64 = 0;
    while k < n
        invariant
            0 <= k <= n,
            n <= 366,
            date_valid(cur),
            cur.year <= d.year <= 9999,
            date_add_days_spec(cur, k as nat) == d,
            date_idx(cur) >= date_idx(d) - 4 * k,
            date_idx(d) >= 5 * 372 + 1,
        decreases n - k,
    {
        proof {
            assert(date_idx(cur) >= 5 * 372 + 1 - 4 * 366);
            assert(!(cur.year == 1 && cur.month == 1 && cur.day == 1)) by {
                if cur.year == 1 && cur.month == 1 && cur.day == 1 {
                    assert(date_idx(cur) == 372 + 1);
                }
            }
            assert(cur.year >= 1);
            lemma_pred_props(cur);
        }
        let dim_prev = if cur.month > 1 {
            month_length(cur.year, cur.month - 1)
        } else {
            31
        };
        let nxt = if cur.day > 1 {
            Date { year: cur.year, month: cur.month, day: cur.day - 1 }
        } else if cur.month > 1 {
            Date { year: cur.year, month: cur.month - 1, day: dim_prev }
        } else {
            Date { year: cur.year - 1, month: 12, day: 31 }
        };
        proof {
            assert(nxt == date_pred_spec(cur));
            assert(date_add_days_spec(nxt, (k + 1) as nat) == date_add_days_spec(
                date_succ_spec(nxt),
                k as nat,
            ));
            assert(date_succ_spec(nxt) == cur);
        }
        cur = nxt;
        k = k + 1;
    }
    cur
}

/// The same day of the next month, clamped to that month's last day.
pub fn date_next_month(d: Date) -> (r: Date)
    requires
        date_valid(d),
        d.year <= 9999,
    ensures
        r == date_next_month_spec(d),
        date_valid(r),
{
    proof {
        lemma_next_month_valid(d);
    }
    let m2: u32 = if d.month == 12 {
        1
    } else {
        d.month + 1
    };
    let y2: u32 = if d.month == 12 {
        d.year + 1
    } else {
        d.year
    };
    let ld2 = last_day_of_month(m2);
    let t: u32 = if d.day == last_day_of_month(d.month) {
        ld2
    } else {
        d.day
    };
    let day2: u32 = if t > ld2 {
        ld2
    } else {
        t
    };
    Date { year: y2, month: m2, day: day2 }
}

/// Canonical `YYYY-MM-DD` rendering of a date.
pub fn fmt_date(d: Date) -> (r: String)
    requires
        date_valid(d),
    ensures
        r@ == fmt_date_chars(d),
{
    let mut s = fmt_u64_padded(d.year as u64, 4);
    s.append("-");
    let m = fmt_u64_padded(d.month as u64, 2);
    s.append(m.as_str());
    s.append("-");
    let dd = fmt_u64_padded(d.day as u64, 2);
    s.append(dd.as_str());
    proof {
        reveal_strlit("-");
        assert(s@ =~= fmt_date_chars(d));
    }
    s
}

/// Parses a `YYYY-MM-DD` date; returns `None` on anything that is not
/// a valid storable date.
pub fn parse_date(s: &str) -> (r: Option<Date>)
    ensures
        r == spec_parse_date(s@),
{
    let parts = split_str(s, '-');
    if parts.len() != 3 {
        return None;
    }
    proof {
        let fs = split_chars(s@, '-');
        assert(parts@[0]@ == fs[0]);
        assert(parts@[1]@ == fs[1]);
        assert(parts@[2]@ == fs[2]);
    }
    let y = match crate::text::parse_digits(parts[0], 4) {
        Some(v) => v,
        None => {
            return None;
        },
    };
    let m = match crate::text::parse_digits(parts[1], 2) {
        Some(v) => v,
        None => {
            return None;
        },
    };
    let dd = match crate::text::parse_digits(parts[2], 2) {
        Some(v) => v,
        None => {
            return None;
        },
    };
    proof {
        crate::text::lemma_pow10_values();
        let fs = split_chars(s@, '-');
        lemma_digits_val_bound(fs[0]);
        lemma_digits_val_bound(fs[1]);
        lemma_digits_val_bound(fs[2]);
        crate::text::lemma_pow10_mono(fs[0].len(), 4);
        crate::text::lemma_pow10_mono(fs[1].len(), 2);
        crate::text::lemma_pow10_mono(fs[2].len(), 2);
    }
    if y < 1 || y > 9999 || m < 1 || m > 12 || dd < 1 {
        return None;
    }
    let dim = month_length(y as u32, m as u32);
    if dd > dim as u64 {
        return None;
    }
    Some(Date { year: y as u32, month: m as u32, day: dd as u32 })
}

/// The text of a date holds only digits and `-`: no field or line
/// separator of the stored format.
pub proof fn lemma_fmt_date_clean(d: Date, c: char)
    requires
        !is_digit_char(c),
        c != '-',
    ensures
        !has_char(fmt_date_chars(d), c),
{
    let y = zero_pad(d.year as nat, 4);
    let m = zero_pad(d.month as nat, 2);
    let dd = zero_pad(d.day as nat, 2);
    lemma_zero_pad_props(d.year as nat, 4);
    lemma_zero_pad_props(d.month as nat, 2);
    lemma_zero_pad_props(d.day as nat, 2);
    lemma_all_digits_no_char(y, c);
    lemma_all_digits_no_char(m, c);
    lemma_all_digits_no_char(dd, c);
    assert(!has_char(seq!['-'], c)) by {
        if has_char(seq!['-'], c) {
            let i = choose|i: int| 0 <= i < 1 && seq!['-'][i] == c;
            assert(seq!['-'][0] == '-');
        }
    }
    lemma_has_char_concat(y, seq!['-'], c);
    lemma_has_char_concat(y + seq!['-'], m, c);
    lemma_has_char_concat(y + seq!['-'] + m, seq!['-'], c);
    lemma_has_char_concat(y + seq!['-'] + m + seq!['-'], dd, c);
}

/// Reading the canonical text of a storable date back yields the same
/// date.
pub proof fn lemma_date_round_trip(d: Date)
    requires
        date_storable(d),
    ensures
        spec_parse_date(fmt_date_chars(d)) == Some(d),
{
    lemma_pow10_values();
    let y = zero_pad(d.year as nat, 4);
    let m = zero_pad(d.month as nat, 2);
    let dd = zero_pad(d.day as nat, 2);
    lemma_zero_pad_props(d.year as nat, 4);
    lemma_zero_pad_props(d.month as nat, 2);
    lemma_zero_pad_props(d.day as nat, 2);
    lemma_all_digits_no_char(y, '-');
    lemma_all_digits_no_char(m, '-');
    lemma_all_digits_no_char(dd, '-');
    let s = fmt_date_chars(d);
    assert(s =~= y + seq!['-'] + (m + seq!['-'] + dd));
    lemma_split_concat(y, '-', m + seq!['-'] + dd);
    lemma_split_concat(m, '-', dd);
    lemma_split_no_sep(dd, '-');
    let fs = split_chars(s, '-');
    assert(fs =~= seq![y, m, dd]);
    assert(y.len() == 4) by {
        lemma_dec_digits_len(d.year as nat, 4);
        assert(dec_digits(d.year as nat).len() <= 4);
    }
    assert(m.len() == 2) by {
        lemma_dec_digits_len(d.month as nat, 2);
        assert(dec_digits(d.month as nat).len() <= 2);
    }
    assert(dd.len() == 2) by {
        lemma_dec_digits_len(d.day as nat, 2);
        assert(dec_digits(d.day as nat).len() <= 2);
    }
    assert(digits_val(fs[0]) == d.year);
    assert(digits_val(fs[1]) == d.month);
    assert(digits_val(fs[2]) == d.day);
}

/// Relies on chrono's `Utc::now` and the `Datelike` accessors `year`,
/// `month` and `day`: the current UTC civil date as a plain
/// (year, month, day) triple. chrono documents `month` as 1 to 12 and
/// `day` as 1 to the month's length in the proleptic Gregorian
/// calendar. `Utc::now` aborts when the system clock is before the
/// Unix epoch.
#[verifier::external_body]
fn current_ymd() -> (r: (i64, u32, u32))
    ensures
        1 <= r.1 <= 12,
        1 <= r.2,
        r.2 as int <= days_in_month(r.0 as int, r.1 as int),
{
    let now = chrono::Utc::now();
    (chrono::Datelike::year(&now) as i64, chrono::Datelike::month(&now), chrono::Datelike::day(
        &now,
    ))
}

/// The current UTC civil date, clamped into the storable year range.
pub fn today() -> (d: Date)
    ensures
        date_storable(d),
{
    let (y, m, dd) = current_ymd();
    if y < 1 {
        Date { year: 1, month: 1, day: 1 }
    } else if y > 9999 {
        Date { year: 9999, month: 12, day: 31 }
    } else {
        Date { year: y as u32, month: m, day: dd }
    }
}

}
