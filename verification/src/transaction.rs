//! Ledger entries. A transaction carries a civil date, a signed
//! fixed-point amount, a description, and — for a recurring template —
//! an interval together with the anchor date of its most recent
//! materialized occurrence. The recurrence engine synthesizes every
//! missed occurrence strictly between the anchor and today and advances
//! the anchor to the first date not before today.

use vstd::prelude::*;
use crate::account::AccountError;
use crate::amount::{fmt_amount, fmt_amount_chars, fmt_amount_display_chars, fmt_amount_display,
    parse_amount, spec_parse_amount, Amount};
use crate::date::{
    add_days, date_add_days_spec, date_before, date_idx, date_lt, date_next_month, date_storable,
    date_succ_spec, date_valid, date_next_month_spec, fmt_date, fmt_date_chars,
    lemma_add_days_step, lemma_add_days_year_lower, lemma_fmt_date_clean, lemma_lt_storable,
    lemma_next_month_valid, parse_date, spec_parse_date, Date,
};
use crate::interval::{interval_code_chars, interval_from_string, spec_interval_from_chars,
    Interval};
use crate::text::{
    has_char, lemma_split_concat, lemma_split_no_sep, split_chars, split_str, trim_spec, trim_str,
};

verus! {

broadcast use vstd::string::group_string_axioms;

/// One ledger entry. A template of a recurring series has `interval`
/// and `last_occurrence` both present; an ordinary entry has neither.
#[derive(Debug, Clone)]
pub struct Transaction {
    pub date: Date,
    pub amount: Amount,
    pub description: String,
    pub interval: Option<Interval>,
    pub last_occurrence: Option<Date>,
}

/// Mathematical image of a transaction.
pub ghost struct TxModel {
    pub date: Date,
    pub amount: int,
    pub description: Seq<char>,
    pub interval: Option<Interval>,
    pub last_occurrence: Option<Date>,
}

impl View for Transaction {
    type V = TxModel;

    open spec fn view(&self) -> TxModel {
        TxModel {
            date: self.date,
            amount: self.amount.nanos as int,
            description: self.description@,
            interval: self.interval,
            last_occurrence: self.last_occurrence,
        }
    }
}

/// Well-formed entry: a storable date, the paired-optional rule of
/// templates, and a meaningful anchor when present.
pub open spec fn tx_wf(t: TxModel) -> bool {
    &&& date_storable(t.date)
    &&& (t.interval is Some <==> t.last_occurrence is Some)
    &&& (t.last_occurrence matches Some(a) ==> date_valid(a))
}

/// Stored line of a transaction: date, amount and description separated
/// by `;`, a recurring template carrying its interval code as a fourth
/// field. The anchor is not persisted: a load re-derives it from the
/// stored date.
pub open spec fn tx_chars(t: TxModel) -> Seq<char> {
    let base = fmt_date_chars(t.date) + seq![';'] + fmt_amount_chars(t.amount) + seq![';']
        + t.description;
    match t.interval {
        Some(iv) => base + seq![';'] + interval_code_chars(iv),
        None => base,
    }
}

/// Lines accepted when loading a transaction: at least three fields,
/// a date, an amount, a description (trimmed), and optionally an
/// interval code; any later fields are ignored. A freshly loaded
/// recurring transaction is anchored at its stored date.
pub open spec fn spec_parse_tx(line: Seq<char>) -> Result<TxModel, AccountError> {
    let fs = split_chars(line, ';');
    if fs.len() < 3 {
        Err(AccountError::MalformedRecord)
    } else if spec_parse_date(fs[0]) is None {
        Err(AccountError::InvalidDate)
    } else if spec_parse_amount(fs[1]) is None {
        Err(AccountError::InvalidAmount)
    } else {
        let date = spec_parse_date(fs[0]).unwrap();
        let amount = spec_parse_amount(fs[1]).unwrap();
        let desc = trim_spec(fs[2]);
        if fs.len() > 3 {
            match spec_interval_from_chars(fs[3]) {
                Ok(iv) => Ok(
                    TxModel {
                        date,
                        amount,
                        description: desc,
                        interval: Some(iv),
                        last_occurrence: Some(date),
                    },
                ),
                Err(e) => Err(e),
            }
        } else {
            Ok(TxModel { date, amount, description: desc, interval: None, last_occurrence: None })
        }
    }
}

impl Transaction {
    /// A transaction with the given fields; callers uphold the
    /// paired-optional rule of `interval` and `last_occurrence`.
    pub fn new(
        date: Date,
        amount: Amount,
        description: String,
        interval: Option<Interval>,
        last_occurrence: Option<Date>,
    ) -> (r: Transaction)
        ensures
            r@ == (TxModel {
                date,
                amount: amount.nanos as int,
                description: description@,
                interval,
                last_occurrence,
            }),
    {
        Transaction { date, amount, description, interval, last_occurrence }
    }

    /// Parses one stored line. Fails with `MalformedRecord` on fewer
    /// than three fields, `InvalidDate` or `InvalidAmount` when those
    /// fields cannot be read, and `InvalidIntervalCode` on an unknown
    /// code in the fourth field.
    pub fn load_from_string(line: String) -> (r: Result<Transaction, AccountError>)
        ensures
            r matches Ok(t) ==> spec_parse_tx(line@) == Ok::<TxModel, AccountError>(t@),
            r matches Err(e) ==> spec_parse_tx(line@) == Err::<TxModel, AccountError>(e),
            r is Ok <==> spec_parse_tx(line@) is Ok,
    {
        let parts = split_str(line.as_str(), ';');
        if parts.len() < 3 {
            return Err(AccountError::MalformedRecord);
        }
        proof {
            let fs = split_chars(line@, ';');
            assert(parts@[0]@ == fs[0]);
            assert(parts@[1]@ == fs[1]);
            assert(parts@[2]@ == fs[2]);
            if parts@.len() > 3 {
                assert(parts@[3]@ == fs[3]);
            }
        }
        let date = match parse_date(parts[0]) {
            Some(d) => d,
            None => {
                return Err(AccountError::InvalidDate);
            },
        };
        let amount = match parse_amount(parts[1]) {
            Ok(a) => a,
            Err(_) => {
                return Err(AccountError::InvalidAmount);
            },
        };
        let description = String::from_str(trim_str(parts[2]));
        if parts.len() > 3 {
            let iv = match interval_from_string(String::from_str(parts[3])) {
                Ok(iv) => iv,
                Err(e) => {
                    return Err(e);
                },
            };
            Ok(
                Transaction {
                    date,
                    amount,
                    description,
                    interval: Some(iv),
                    last_occurrence: Some(date),
                },
            )
        } else {
            Ok(Transaction { date, amount, description, interval: None, last_occurrence: None })
        }
    }

    /// The stored line of this transaction, without a line break.
    pub fn save_to_string(&self) -> (r: String)
        requires
            date_valid(self@.date),
        ensures
            r@ == tx_chars(self@),
    {
        let mut s = fmt_date(self.date);
        s.append(";");
        let am = fmt_amount(self.amount);
        s.append(am.as_str());
        s.append(";");
        s.append(self.description.as_str());
        proof {
            reveal_strlit(";");
        }
        match &self.interval {
            Some(iv) => {
                s.append(";");
                let code = iv.to_code();
                s.append(code.as_str());
                proof {
                    assert(s@ =~= tx_chars(self@));
                }
            },
            None => {
                proof {
                    assert(s@ =~= tx_chars(self@));
                }
            },
        }
        s
    }

    /// Display text: the amount to two decimal places, the date, and
    /// the description.
    pub fn display_string(&self) -> (r: String)
        requires
            date_valid(self@.date),
        ensures
            r@ == tx_display_chars(self@),
    {
        let mut s = fmt_amount_display(self.amount);
        s.append(" @ ");
        let ds = fmt_date(self.date);
        s.append(ds.as_str());
        s.append(": ");
        s.append(self.description.as_str());
        proof {
            assert(s@ =~= tx_display_chars(self@));
        }
        s
    }
}

/// Display text of a transaction.
pub open spec fn tx_display_chars(t: TxModel) -> Seq<char> {
    fmt_amount_display_chars(t.amount) + " @ "@ + fmt_date_chars(t.date) + ": "@ + t.description
}

/// The occurrence date following `d` for an interval: a fixed number of
/// days for the daily, weekly and biweekly kinds, and the clamped
/// same-day-next-month step for the monthly kind, recomputed from each
/// occurrence because month lengths vary.
pub open spec fn advance_spec(d: Date, iv: Interval) -> Date {
    match iv {
        Interval::Daily => date_add_days_spec(d, 1),
        Interval::Weekly => date_add_days_spec(d, 7),
        Interval::Biweekly => date_add_days_spec(d, 14),
        Interval::Monthly => date_next_month_spec(d),
    }
}

pub proof fn lemma_advance_props(d: Date, iv: Interval)
    requires
        date_storable(d),
    ensures
        date_valid(advance_spec(d, iv)),
        date_idx(d) < date_idx(advance_spec(d, iv)),
{
    match iv {
        Interval::Daily => lemma_add_days_step(d, 1),
        Interval::Weekly => lemma_add_days_step(d, 7),
        Interval::Biweekly => lemma_add_days_step(d, 14),
        Interval::Monthly => lemma_next_month_valid(d),
    }
}

/// Dates of the occurrences synthesized by a catch-up that starts at
/// anchor `cur`: every stepped date strictly before today, in order.
pub open spec fn catch_dates(cur: Date, iv: Interval, today: Date) -> Seq<Date>
    decreases date_idx(today) - date_idx(cur)
        when date_storable(cur) && date_storable(today) && date_lt(cur, today)
    via catch_dates_dec
{
    let nxt = advance_spec(cur, iv);
    if !date_lt(nxt, today) {
        Seq::empty()
    } else {
        seq![nxt] + catch_dates(nxt, iv, today)
    }
}

#[via_fn]
proof fn catch_dates_dec(cur: Date, iv: Interval, today: Date) {
    lemma_advance_props(cur, iv);
}

/// The anchor after a catch-up that starts at anchor `cur`: the first
/// stepped date that is not strictly before today.
pub open spec fn final_anchor_spec(cur: Date, iv: Interval, today: Date) -> Date
    decreases date_idx(today) - date_idx(cur)
        when date_storable(cur) && date_storable(today) && date_lt(cur, today)
    via final_anchor_dec
{
    let nxt = advance_spec(cur, iv);
    if !date_lt(nxt, today) {
        nxt
    } else {
        final_anchor_spec(nxt, iv, today)
    }
}

#[via_fn]
proof fn final_anchor_dec(cur: Date, iv: Interval, today: Date) {
    lemma_advance_props(cur, iv);
}

/// Every synthesized date is storable and strictly before today, and
/// the final anchor is valid and has caught up: it is not strictly
/// before today, so a second catch-up on the same day synthesizes
/// nothing.
pub proof fn lemma_catch_props(cur: Date, iv: Interval, today: Date)
    requires
        date_storable(cur),
        date_storable(today),
        date_lt(cur, today),
    ensures
        forall|i: int|
            0 <= i < catch_dates(cur, iv, today).len() ==> date_storable(
                #[trigger] catch_dates(cur, iv, today)[i],
            ) && date_lt(catch_dates(cur, iv, today)[i], today),
        date_valid(final_anchor_spec(cur, iv, today)),
        !date_lt(final_anchor_spec(cur, iv, today), today),
    decreases date_idx(today) - date_idx(cur),
{
    let nxt = advance_spec(cur, iv);
    lemma_advance_props(cur, iv);
    if !date_lt(nxt, today) {
    } else {
        lemma_lt_storable(nxt, today);
        lemma_catch_props(nxt, iv, today);
        let c = catch_dates(cur, iv, today);
        assert forall|i: int|
            0 <= i < c.len() implies date_storable(#[trigger] c[i]) && date_lt(c[i], today) by {
            if i > 0 {
                assert(c[i] == catch_dates(nxt, iv, today)[i - 1]);
            }
        }
    }
}

/// The mathematical image of one synthesized occurrence: an ordinary,
/// non-recurring entry with the template's amount and description and
/// the occurrence's own date.
pub open spec fn occ_model(t: TxModel, d: Date) -> TxModel {
    TxModel {
        date: d,
        amount: t.amount,
        description: t.description,
        interval: None,
        last_occurrence: None,
    }
}

pub open spec fn occ_models(t: TxModel, ds: Seq<Date>) -> Seq<TxModel> {
    ds.map_values(|d: Date| occ_model(t, d))
}

/// The images of a sequence of transactions.
pub open spec fn views_of(s: Seq<Transaction>) -> Seq<TxModel> {
    s.map_values(|t: Transaction| t@)
}

/// Catch-up of one transaction against today: the synthesized
/// occurrences, in order, and the transaction with its anchor advanced.
/// A transaction without an interval or an anchor, or whose anchor is
/// not strictly before today, synthesizes nothing and keeps its anchor
/// (no negative catch-up).
pub open spec fn spec_expand(t: TxModel, today: Date) -> (Seq<TxModel>, TxModel) {
    match (t.interval, t.last_occurrence) {
        (Some(iv), Some(anchor)) => if date_lt(anchor, today) {
            (
                occ_models(t, catch_dates(anchor, iv, today)),
                TxModel { last_occurrence: Some(final_anchor_spec(anchor, iv, today)), ..t },
            )
        } else {
            (Seq::empty(), t)
        },
        _ => (Seq::empty(), t),
    }
}

/// What `update` does: the synthesized occurrences of `spec_expand` are
/// appended and the anchor becomes the expanded transaction's anchor.
pub open spec fn update_post(
    pre: TxModel,
    post: TxModel,
    ts_pre: Seq<TxModel>,
    ts_post: Seq<TxModel>,
    today: Date,
) -> bool {
    &&& ts_post == ts_pre + spec_expand(pre, today).0
    &&& post.last_occurrence == spec_expand(pre, today).1.last_occurrence
}

/// Expansion of a well-formed transaction yields well-formed entries:
/// every occurrence is an ordinary entry on a storable date, and the
/// advanced template is well formed again.
pub proof fn lemma_expand_wf(t: TxModel, today: Date)
    requires
        tx_wf(t),
        date_storable(today),
    ensures
        forall|i: int|
            0 <= i < spec_expand(t, today).0.len() ==> tx_wf(#[trigger] spec_expand(t, today).0[i]),
        tx_wf(spec_expand(t, today).1),
        spec_expand(t, today).1.date == t.date,
        spec_expand(t, today).1.amount == t.amount,
        spec_expand(t, today).1.description == t.description,
        spec_expand(t, today).1.interval == t.interval,
{
    match (t.interval, t.last_occurrence) {
        (Some(iv), Some(anchor)) => {
            if date_lt(anchor, today) {
                lemma_lt_storable(anchor, today);
                lemma_catch_props(anchor, iv, today);
                let occs = spec_expand(t, today).0;
                let ds = catch_dates(anchor, iv, today);
                assert forall|i: int| 0 <= i < occs.len() implies tx_wf(#[trigger] occs[i]) by {
                    assert(occs[i] == occ_model(t, ds[i]));
                    assert(date_storable(ds[i]));
                }
            }
        },
        _ => {},
    }
}

/// Remaining work of a catch-up loop: zero once the stepped date has
/// reached today.
pub open spec fn catch_measure(nxt: Date, today: Date) -> int {
    if date_lt(nxt, today) {
        date_idx(today) - date_idx(nxt)
    } else {
        0
    }
}

/// The next occurrence date for an interval.
pub fn advance(d: Date, iv: Interval) -> (r: Date)
    requires
        date_storable(d),
    ensures
        r == advance_spec(d, iv),
        date_valid(r),
        date_idx(d) < date_idx(r),
{
    proof {
        lemma_advance_props(d, iv);
    }
    match iv {
        Interval::Daily => add_days(d, 1),
        Interval::Weekly => add_days(d, 7),
        Interval::Biweekly => add_days(d, 14),
        Interval::Monthly => date_next_month(d),
    }
}

impl Transaction {
    /// Runs the recurrence catch-up of this transaction against `today`:
    /// appends one ordinary entry per missed occurrence strictly between
    /// the anchor and today to `ts`, and advances the anchor to the
    /// first stepped date not before today. A transaction without an
    /// interval or an anchor, or whose anchor is not strictly before
    /// today, is left unchanged (no negative catch-up).
    #[verifier::loop_isolation(false)]
    pub fn update(&mut self, ts: &mut Vec<Transaction>, today: Date)
        requires
            date_storable(today),
            old(self)@.last_occurrence matches Some(a) ==> date_valid(a),
        ensures
            final(self)@.date == old(self)@.date,
            final(self)@.amount == old(self)@.amount,
            final(self)@.description == old(self)@.description,
            final(self)@.interval == old(self)@.interval,
            update_post(old(self)@, final(self)@, views_of(old(ts)@), views_of(final(ts)@), today),
    {
        proof {
            assert(views_of(ts@) =~= views_of(ts@) + Seq::<TxModel>::empty());
        }
        let iv = match self.interval {
            Some(iv) => iv,
            None => {
                return ;
            },
        };
        let anchor = match self.last_occurrence {
            Some(a) => a,
            None => {
                return ;
            },
        };
        if !date_before(anchor, today) {
            return ;
        }
        proof {
            lemma_lt_storable(anchor, today);
        }
        let ghost t0 = self@;
        let ghost ts0 = views_of(ts@);
        let ghost mut emitted: Seq<Date> = Seq::empty();
        let mut cur = anchor;
        let mut nxt = advance(cur, iv);
        proof {
            assert(emitted + catch_dates(cur, iv, today) =~= catch_dates(anchor, iv, today));
            assert(ts0 + occ_models(t0, emitted) =~= views_of(ts@));
        }
        while date_before(nxt, today)
            invariant
                date_storable(cur),
                date_valid(nxt),
                nxt == advance_spec(cur, iv),
                date_lt(cur, today),
                catch_dates(anchor, iv, today) == emitted + catch_dates(cur, iv, today),
                final_anchor_spec(anchor, iv, today) == final_anchor_spec(cur, iv, today),
                views_of(ts@) == ts0 + occ_models(t0, emitted),
                self@ == t0,
            decreases catch_measure(nxt, today),
        {
            let tx = Transaction {
                date: nxt,
                amount: self.amount,
                description: self.description.clone(),
                interval: None,
                last_occurrence: None,
            };
            let ghost tsv = ts@;
            proof {
                assert(tx@ == occ_model(t0, nxt));
            }
            ts.push(tx);
            proof {
                let e2 = emitted.push(nxt);
                assert(occ_models(t0, e2) =~= occ_models(t0, emitted).push(occ_model(t0, nxt)));
                assert(views_of(ts@) =~= views_of(tsv).push(tx@));
                assert(ts0 + occ_models(t0, e2) =~= (ts0 + occ_models(t0, emitted)).push(
                    occ_model(t0, nxt),
                ));
                assert(views_of(ts@) =~= ts0 + occ_models(t0, e2));
                assert(catch_dates(cur, iv, today) == seq![nxt] + catch_dates(nxt, iv, today));
                assert(emitted + catch_dates(cur, iv, today) =~= e2 + catch_dates(nxt, iv, today));
                assert(final_anchor_spec(cur, iv, today) == final_anchor_spec(nxt, iv, today));
                emitted = e2;
                lemma_lt_storable(nxt, today);
            }
            cur = nxt;
            nxt = advance(cur, iv);
        }
        proof {
            assert(catch_dates(cur, iv, today) =~= Seq::<Date>::empty());
            assert(final_anchor_spec(cur, iv, today) == nxt);
            assert(emitted + Seq::<Date>::empty() =~= emitted);
            assert(emitted == catch_dates(anchor, iv, today));
        }
        self.last_occurrence = Some(nxt);
    }
}

/// A transaction read from a stored line is well formed, and a loaded
/// recurring transaction is anchored at its own stored date.
pub proof fn lemma_parse_tx_wf(line: Seq<char>)
    ensures
        spec_parse_tx(line) matches Ok(t) ==> tx_wf(t) && (t.last_occurrence matches Some(a) ==> a
            == t.date),
{
}

/// Parsing a serialized transaction yields one with the same calendar
/// date, the same amount, the same description and the same interval;
/// a recurring transaction comes back anchored at its stored date. The
/// description must be free of the field and line separators and carry
/// no surrounding blanks, which the loader strips.
#[verifier::rlimit(60)]
pub proof fn lemma_transaction_round_trip(t: TxModel)
    requires
        date_storable(t.date),
        i64::MIN <= t.amount <= i64::MAX,
        !has_char(t.description, ';'),
        trim_spec(t.description) == t.description,
    ensures
        spec_parse_tx(tx_chars(t)) matches Ok(u) && u.date == t.date && u.amount == t.amount
            && u.description == t.description && u.interval == t.interval && u.last_occurrence == (
        if t.interval is Some {
            Some(t.date)
        } else {
            None::<Date>
        }),
{
    let line = tx_chars(t);
    let dc = fmt_date_chars(t.date);
    let ac = fmt_amount_chars(t.amount);
    lemma_fmt_date_clean(t.date, ';');
    crate::amount::lemma_fmt_amount_clean(t.amount, ';');
    crate::date::lemma_date_round_trip(t.date);
    crate::amount::lemma_amount_round_trip(t.amount);
    match t.interval {
        Some(iv) => {
            let code = interval_code_chars(iv);
            crate::interval::lemma_interval_code_clean(iv);
            crate::interval::lemma_interval_code_round_trip(iv);
            let rest2 = t.description + seq![';'] + code;
            let rest1 = ac + seq![';'] + rest2;
            assert(line =~= dc + seq![';'] + rest1);
            lemma_split_concat(dc, ';', rest1);
            lemma_split_concat(ac, ';', rest2);
            assert(rest2 =~= t.description + seq![';'] + code);
            lemma_split_concat(t.description, ';', code);
            lemma_split_no_sep(code, ';');
            let fs = split_chars(line, ';');
            assert(fs =~= seq![dc, ac, t.description, code]);
        },
        None => {
            let rest1 = ac + seq![';'] + t.description;
            assert(line =~= dc + seq![';'] + rest1);
            lemma_split_concat(dc, ';', rest1);
            lemma_split_concat(ac, ';', t.description);
            lemma_split_no_sep(t.description, ';');
            let fs = split_chars(line, ';');
            assert(fs =~= seq![dc, ac, t.description]);
        },
    }
}

/// Catch-up of a daily template anchored `n` days before today emits
/// exactly `n - 1` occurrences — the days strictly between the anchor
/// and today — and advances the anchor to today itself.
pub proof fn lemma_daily_catch_up(anchor: Date, today: Date, n: nat)
    requires
        date_storable(anchor),
        date_storable(today),
        1 <= n,
        anchor.year + n < 4294967296,
        date_add_days_spec(anchor, n) == today,
    ensures
        date_lt(anchor, today),
        catch_dates(anchor, Interval::Daily, today).len() == n - 1,
        final_anchor_spec(anchor, Interval::Daily, today) == today,
    decreases n,
{
    lemma_add_days_step(anchor, 1);
    let nxt = date_add_days_spec(anchor, 1);
    assert(nxt == date_succ_spec(anchor)) by {
        assert(date_add_days_spec(date_succ_spec(anchor), 0) == date_succ_spec(anchor));
    }
    if n == 1 {
        assert(nxt == today);
        assert(date_lt(anchor, today));
        assert(advance_spec(anchor, Interval::Daily) == today);
        assert(catch_dates(anchor, Interval::Daily, today) =~= Seq::<Date>::empty());
    } else {
        assert(date_add_days_spec(nxt, (n - 1) as nat) == today);
        if nxt.year > 9999 {
            lemma_add_days_year_lower(nxt, (n - 1) as nat);
            assert(today.year >= nxt.year);
            assert(false);
        }
        assert(date_storable(nxt));
        lemma_daily_catch_up(nxt, today, (n - 1) as nat);
        assert(date_lt(anchor, today));
        assert(catch_dates(anchor, Interval::Daily, today) == seq![nxt] + catch_dates(
            nxt,
            Interval::Daily,
            today,
        ));
        assert(final_anchor_spec(anchor, Interval::Daily, today) == final_anchor_spec(
            nxt,
            Interval::Daily,
            today,
        ));
    }
}

/// Catch-up of a weekly template anchored exactly seven days before
/// today emits no occurrence at all: the first stepped date is today,
/// which is not strictly before today; the anchor still advances there.
pub proof fn lemma_weekly_same_week(anchor: Date, today: Date)
    requires
        date_storable(anchor),
        date_storable(today),
        date_add_days_spec(anchor, 7) == today,
    ensures
        date_lt(anchor, today),
        catch_dates(anchor, Interval::Weekly, today).len() == 0,
        final_anchor_spec(anchor, Interval::Weekly, today) == today,
{
    lemma_add_days_step(anchor, 7);
    assert(advance_spec(anchor, Interval::Weekly) == today);
    assert(catch_dates(anchor, Interval::Weekly, today) =~= Seq::<Date>::empty());
}

}
