//! Accounts of the ledger: the error taxonomy, the named transaction
//! log with its derived balance, the overdraw policy, and the
//! line-oriented persistence format. Reading and writing the backing
//! file belongs to the surrounding I/O layer; this module works on the
//! file's text.

use vstd::prelude::*;
use crate::amount::Amount;
use crate::date::{date_storable, date_valid, today, Date};
use crate::text::{split_chars, split_str, str_eq, trim_spec, trim_str};
use crate::transaction::{
    lemma_expand_wf, lemma_parse_tx_wf, spec_expand, spec_parse_tx, tx_chars, tx_wf, views_of,
    Transaction, TxModel,
};

verus! {

broadcast use vstd::string::group_string_axioms;

/// Errors of the ledger. The first four are parse-time structural
/// failures that abort a load; `NoOverdraw` is the business-rule
/// rejection of an expense; `MissingOptions` reports an absent command
/// argument; `AmountOutOfRange` reports an adjustment that no stored
/// amount can carry; `FileError` wraps an I/O failure raised by the
/// surrounding storage layer.
#[derive(Clone, Debug, PartialEq)]
pub enum AccountError {
    MalformedRecord,
    InvalidDate,
    InvalidAmount,
    InvalidIntervalCode,
    NoOverdraw(String),
    MissingOptions(String),
    AmountOutOfRange,
    FileError(String),
}

/// Explanatory text of each error; `NoOverdraw` carries the name of the
/// account it protects.
pub open spec fn spec_error_message(e: AccountError) -> Seq<char> {
    match e {
        AccountError::MalformedRecord => "stored record needs at least 3 fields"@,
        AccountError::InvalidDate => "stored date could not be read"@,
        AccountError::InvalidAmount => "stored amount could not be read"@,
        AccountError::InvalidIntervalCode => "invalid interval flag stored"@,
        AccountError::NoOverdraw(name) => "Cannot overdraw "@ + name@,
        AccountError::MissingOptions(msg) => msg@,
        AccountError::AmountOutOfRange => "adjustment amount out of range"@,
        AccountError::FileError(msg) => msg@,
    }
}

impl AccountError {
    /// Human-readable message of the error.
    pub fn message(&self) -> (r: String)
        ensures
            r@ == spec_error_message(*self),
    {
        match self {
            AccountError::MalformedRecord => String::from_str(
                "stored record needs at least 3 fields",
            ),
            AccountError::InvalidDate => String::from_str("stored date could not be read"),
            AccountError::InvalidAmount => String::from_str("stored amount could not be read"),
            AccountError::InvalidIntervalCode => String::from_str("invalid interval flag stored"),
            AccountError::NoOverdraw(name) => {
                let mut s = String::from_str("Cannot overdraw ");
                s.append(name.as_str());
                s
            },
            AccountError::MissingOptions(msg) => msg.clone(),
            AccountError::AmountOutOfRange => String::from_str("adjustment amount out of range"),
            AccountError::FileError(msg) => msg.clone(),
        }
    }
}

/// A named ledger: a derived balance, the overdraw policy fixed at
/// creation, and the ordered transaction log the account exclusively
/// owns. `filepath` names the backing file the surrounding I/O layer
/// reads and writes.
#[derive(Debug)]
pub struct Account {
    pub name: String,
    pub description: String,
    pub filepath: String,
    pub balance: i128,
    pub can_overdraw: bool,
    pub transactions: Vec<Transaction>,
}

/// Mathematical image of an account.
pub ghost struct AccountModel {
    pub name: Seq<char>,
    pub description: Seq<char>,
    pub filepath: Seq<char>,
    pub balance: int,
    pub can_overdraw: bool,
    pub transactions: Seq<TxModel>,
}

impl View for Account {
    type V = AccountModel;

    open spec fn view(&self) -> AccountModel {
        AccountModel {
            name: self.name@,
            description: self.description@,
            filepath: self.filepath@,
            balance: self.balance as int,
            can_overdraw: self.can_overdraw,
            transactions: views_of(self.transactions@),
        }
    }
}

/// Sum of the amounts of a transaction log.
pub open spec fn sum_amounts(s: Seq<TxModel>) -> int
    decreases s.len(),
{
    if s.len() == 0 {
        0
    } else {
        sum_amounts(s.drop_last()) + s.last().amount
    }
}

/// Balance invariant of an account: the balance is exactly the sum of
/// every materialized transaction's amount, and every entry of the log
/// is well formed.
pub open spec fn account_wf(a: AccountModel) -> bool {
    &&& a.balance == sum_amounts(a.transactions)
    &&& forall|i: int| 0 <= i < a.transactions.len() ==> tx_wf(#[trigger] a.transactions[i])
}

pub proof fn lemma_sum_push(s: Seq<TxModel>, t: TxModel)
    ensures
        sum_amounts(s.push(t)) == sum_amounts(s) + t.amount,
{
    assert(s.push(t).drop_last() =~= s);
    assert(s.push(t).last() == t);
}

/// The sum of a log of stored amounts is bounded by the log's length,
/// so a 128-bit balance cannot overflow.
pub proof fn lemma_sum_bounded(s: Seq<TxModel>)
    requires
        forall|i: int|
            0 <= i < s.len() ==> i64::MIN <= #[trigger] s[i].amount && s[i].amount <= i64::MAX,
    ensures
        -(s.len() as int) * 0x8000000000000000 <= sum_amounts(s) <= (s.len() as int)
            * 0x7fffffffffffffff,
    decreases s.len(),
{
    if s.len() > 0 {
        assert(forall|i: int|
            0 <= i < s.len() - 1 ==> #[trigger] s.drop_last()[i] == s[i]);
        lemma_sum_bounded(s.drop_last());
    }
}

/// Amounts taken from stored transactions always fit a stored amount.
pub proof fn lemma_views_amount_bounded(s: Seq<Transaction>)
    ensures
        forall|i: int|
            0 <= i < views_of(s).len() ==> i64::MIN <= #[trigger] views_of(s)[i].amount && views_of(
                s,
            )[i].amount <= i64::MAX,
{
    assert forall|i: int|
        0 <= i < views_of(s).len() implies i64::MIN <= #[trigger] views_of(s)[i].amount
        && views_of(s)[i].amount <= i64::MAX by {
        assert(views_of(s)[i] == s[i]@);
    }
}

/// The balance derived from a log, recomputed from the entries alone.
pub fn compute_balance(ts: &Vec<Transaction>) -> (r: i128)
    ensures
        r == sum_amounts(views_of(ts@)),
{
    let mut r: i128 = 0;
    let mut i: usize = 0;
    let n = ts.len();
    proof {
        assert(views_of(ts@).take(0) =~= Seq::<TxModel>::empty());
        lemma_views_amount_bounded(ts@);
    }
    while i < n
        invariant
            n == ts@.len(),
            0 <= i <= n,
            r == sum_amounts(views_of(ts@).take(i as int)),
            forall|k: int|
                0 <= k < views_of(ts@).len() ==> i64::MIN <= #[trigger] views_of(ts@)[k].amount
                    && views_of(ts@)[k].amount <= i64::MAX,
        decreases n - i,
    {
        proof {
            let v = views_of(ts@);
            assert(forall|k: int| 0 <= k < i ==> #[trigger] v.take(i as int)[k] == v[k]);
            lemma_sum_bounded(v.take(i as int));
            assert(v.take(i + 1).drop_last() =~= v.take(i as int));
            assert(v.take(i + 1).last() == v[i as int]);
            assert(v[i as int] == ts@[i as int]@);
        }
        r = r + ts[i].amount.nanos as i128;
        i = i + 1;
    }
    proof {
        assert(views_of(ts@).take(n as int) =~= views_of(ts@));
    }
    r
}

/// What an unknown text must map every space to; the rest of the
/// characters of a name pass through unchanged.
pub open spec fn underscored(s: Seq<char>) -> Seq<char> {
    s.map_values(
        |c: char|
            if c == ' ' {
                '_'
            } else {
                c
            },
    )
}

/// Lowercase image of a text, as `str::to_lowercase` computes it; the
/// result depends on the characters alone.
pub uninterp spec fn lower_chars(s: Seq<char>) -> Seq<char>;

/// Relies on `str::replace` with the one-character pattern `" "`: every
/// space becomes an underscore and every other character stays.
#[verifier::external_body]
fn replace_spaces(s: &str) -> (r: String)
    ensures
        r@ == underscored(s@),
{
    s.replace(" ", "_")
}

/// Relies on `str::to_lowercase`: the lowercase equivalent of the text,
/// a function of the characters alone.
#[verifier::external_body]
fn lowercase(s: &str) -> (r: String)
    ensures
        r@ == lower_chars(s@),
{
    s.to_lowercase()
}

/// The name of an account's backing file, derived from its name.
pub open spec fn filepath_chars(name: Seq<char>) -> Seq<char> {
    "."@ + lower_chars(underscored(name)) + ".finance"@
}

/// Header line of a stored account: name, overdraw flag and trimmed
/// description, separated by `;`. A header with fewer than three fields
/// or an overdraw flag that is not exactly `true` or `false` is
/// malformed.
pub open spec fn spec_parse_header(line: Seq<char>) -> Result<
    (Seq<char>, bool, Seq<char>),
    AccountError,
> {
    let fs = split_chars(line, ';');
    if fs.len() < 3 {
        Err(AccountError::MalformedRecord)
    } else if fs[1] == "true"@ {
        Ok((fs[0], true, trim_spec(fs[2])))
    } else if fs[1] == "false"@ {
        Ok((fs[0], false, trim_spec(fs[2])))
    } else {
        Err(AccountError::MalformedRecord)
    }
}

/// Entries loaded from the transaction lines of a stored account:
/// blank lines are skipped, each stored transaction is expanded against
/// today — its synthesized occurrences first, the template with its
/// advanced anchor after them — and the first failing line aborts the
/// load.
pub open spec fn spec_load_txs(lines: Seq<Seq<char>>, today: Date) -> Result<
    Seq<TxModel>,
    AccountError,
>
    decreases lines.len(),
{
    if lines.len() == 0 {
        Ok(Seq::empty())
    } else if lines[0].len() == 0 {
        spec_load_txs(lines.skip(1), today)
    } else {
        match spec_parse_tx(lines[0]) {
            Err(e) => Err(e),
            Ok(t) => match spec_load_txs(lines.skip(1), today) {
                Err(e) => Err(e),
                Ok(rest) => Ok(spec_expand(t, today).0 + seq![spec_expand(t, today).1] + rest),
            },
        }
    }
}

/// A stored account read against today: the header line, then every
/// transaction line expanded, the balance being the sum of every loaded
/// entry's amount.
pub open spec fn spec_load(content: Seq<char>, filepath: Seq<char>, today: Date) -> Result<
    AccountModel,
    AccountError,
> {
    let lines = split_chars(content, '\n');
    match spec_parse_header(lines[0]) {
        Err(e) => Err(e),
        Ok((name, od, desc)) => match spec_load_txs(lines.skip(1), today) {
            Err(e) => Err(e),
            Ok(txs) => Ok(
                AccountModel {
                    name,
                    description: desc,
                    filepath,
                    balance: sum_amounts(txs),
                    can_overdraw: od,
                    transactions: txs,
                },
            ),
        },
    }
}

/// Text code of the overdraw flag in the stored header.
pub open spec fn bool_chars(b: bool) -> Seq<char> {
    if b {
        "true"@
    } else {
        "false"@
    }
}

/// The stored header line of an account, line break in.
pub open spec fn header_chars(a: AccountModel) -> Seq<char> {
    a.name + seq![';'] + bool_chars(a.can_overdraw) + seq![';'] + a.description + seq!['\n']
}

/// The stored transaction lines, one per entry in log order, each ended
/// by a line break.
pub open spec fn spec_save_txs(ts: Seq<TxModel>) -> Seq<char>
    decreases ts.len(),
{
    if ts.len() == 0 {
        Seq::empty()
    } else {
        spec_save_txs(ts.drop_last()) + tx_chars(ts.last()) + seq!['\n']
    }
}

/// The full stored text of an account.
pub open spec fn spec_save(a: AccountModel) -> Seq<char> {
    header_chars(a) + spec_save_txs(a.transactions)
}

/// Display text of an account: name, two-decimal balance, description.
pub open spec fn account_display_chars(a: AccountModel) -> Seq<char> {
    a.name + "("@ + crate::amount::fmt_amount_display_chars(a.balance) + "): "@ + a.description
}

/// The expense actually recorded for a requested amount: a positive
/// request is negated, so the operation always records an expense.
pub open spec fn expense_value(a: int) -> int {
    if a > 0 {
        -a
    } else {
        a
    }
}

/// When `set` is denied by the overdraw policy: the adjustment is
/// negative, the account cannot overdraw, and the target lies below
/// zero.
pub open spec fn set_denied(a: AccountModel, target: int) -> bool {
    target < a.balance && !a.can_overdraw && target < 0
}

/// When `set`'s adjustment cannot be carried by one stored amount.
pub open spec fn set_out_of_range(a: AccountModel, target: int) -> bool {
    !set_denied(a, target) && !(i64::MIN <= target - a.balance <= i64::MAX)
}

/// What recording an expense does. Denial happens exactly when the
/// account cannot overdraw and the normalized expense would push the
/// balance below zero; the account is then untouched and the error
/// names it. Otherwise one ordinary entry dated some storable day is
/// appended and the balance drops by the normalized expense.
pub open spec fn spent_post(
    pre: AccountModel,
    post: AccountModel,
    amount: int,
    desc: Seq<char>,
    r: Result<(), AccountError>,
) -> bool {
    &&& post.name == pre.name
    &&& post.description == pre.description
    &&& post.filepath == pre.filepath
    &&& post.can_overdraw == pre.can_overdraw
    &&& (r is Err <==> !pre.can_overdraw && pre.balance + expense_value(amount) < 0)
    &&& (r matches Err(e) ==> post == pre && (e matches AccountError::NoOverdraw(m) && m@
        == pre.name))
    &&& (r is Ok ==> exists|d: Date|
        date_storable(d) && post.transactions == pre.transactions.push(
            TxModel {
                date: d,
                amount: expense_value(amount),
                description: desc,
                interval: None,
                last_occurrence: None,
            },
        ))
    &&& (r is Ok ==> post.balance == pre.balance + expense_value(amount))
}

/// What recording income does: one ordinary entry with the amount as
/// given, dated some storable day, and the balance raised by it. Income
/// never needs an overdraw check.
pub open spec fn got_post(pre: AccountModel, post: AccountModel, amount: int, desc: Seq<char>) -> bool {
    &&& post.name == pre.name
    &&& post.description == pre.description
    &&& post.filepath == pre.filepath
    &&& post.can_overdraw == pre.can_overdraw
    &&& exists|d: Date|
        date_storable(d) && post.transactions == pre.transactions.push(
            TxModel {
                date: d,
                amount: amount,
                description: desc,
                interval: None,
                last_occurrence: None,
            },
        )
    &&& post.balance == pre.balance + amount
}

/// What setting an absolute balance does: denial and range failure
/// leave the account untouched; success appends one adjusting entry
/// dated some storable day and the balance equals the target exactly.
pub open spec fn set_post(
    pre: AccountModel,
    post: AccountModel,
    target: int,
    desc: Seq<char>,
    r: Result<(), AccountError>,
) -> bool {
    &&& post.name == pre.name
    &&& post.description == pre.description
    &&& post.filepath == pre.filepath
    &&& post.can_overdraw == pre.can_overdraw
    &&& (r is Err <==> set_denied(pre, target) || set_out_of_range(pre, target))
    &&& (r matches Err(e) ==> post == pre && (set_denied(pre, target) ==> (e
        matches AccountError::NoOverdraw(m) && m@ == pre.name)) && (set_out_of_range(pre, target)
        ==> e == AccountError::AmountOutOfRange))
    &&& (r is Ok ==> exists|d: Date|
        date_storable(d) && post.transactions == pre.transactions.push(
            TxModel {
                date: d,
                amount: target - pre.balance,
                description: desc,
                interval: None,
                last_occurrence: None,
            },
        ))
    &&& (r is Ok ==> post.balance == target)
}

/// Two-decimal display text of a derived balance.
pub fn fmt_balance_display(v: i128) -> (r: String)
    ensures
        r@ == crate::amount::fmt_amount_display_chars(v as int),
{
    let neg = v < 0;
    let mag: u128 = if v >= 0 {
        v as u128
    } else {
        ((-(v + 1)) as u128) + 1
    };
    proof {
        assert(mag as int == crate::amount::abs_val(v as int));
    }
    let mut s = String::new();
    if neg {
        s.append("-");
    }
    let ipart = crate::text::fmt_u128(mag / 1000000000);
    s.append(ipart.as_str());
    s.append(".");
    let fpart = crate::text::fmt_u64_padded((mag % 1000000000 / 10000000) as u64, 2);
    s.append(fpart.as_str());
    proof {
        reveal_strlit("-");
        reveal_strlit(".");
        assert(s@ =~= crate::amount::fmt_amount_display_chars(v as int));
    }
    s
}

/// What a load against a given day returns: on success the account is
/// exactly the one `spec_load` describes, with its balance invariant;
/// on failure the error is the one `spec_load` names.
pub open spec fn load_post(
    content: Seq<char>,
    filepath: Seq<char>,
    today: Date,
    r: Result<Account, AccountError>,
) -> bool {
    match r {
        Ok(a) => spec_load(content, filepath, today) == Ok::<AccountModel, AccountError>(a@)
            && account_wf(a@),
        Err(e) => spec_load(content, filepath, today) == Err::<AccountModel, AccountError>(e),
    }
}

/// Within one calendar day a stored account reads back the same way
/// every time: two same-day loads of the same text agree on the whole
/// account, its transaction count among the rest — no duplicate
/// synthesis.
pub proof fn lemma_same_day_load_deterministic(
    content: Seq<char>,
    filepath: Seq<char>,
    today: Date,
    a: AccountModel,
    b: AccountModel,
)
    requires
        spec_load(content, filepath, today) == Ok::<AccountModel, AccountError>(a),
        spec_load(content, filepath, today) == Ok::<AccountModel, AccountError>(b),
    ensures
        a == b,
        a.transactions.len() == b.transactions.len(),
{
}

impl Account {
    /// An account with the given fields; `load` and `create` are the
    /// constructors that establish the balance invariant.
    pub fn new(
        n: String,
        d: String,
        fp: String,
        b: i128,
        o: bool,
        ts: Vec<Transaction>,
    ) -> (r: Account)
        ensures
            r@ == (AccountModel {
                name: n@,
                description: d@,
                filepath: fp@,
                balance: b as int,
                can_overdraw: o,
                transactions: views_of(ts@),
            }),
    {
        Account {
            name: n,
            description: d,
            filepath: fp,
            balance: b,
            can_overdraw: o,
            transactions: ts,
        }
    }

    /// A fresh account: empty log, balance zero, and a backing-file
    /// name derived from the account's name. Registering that file in
    /// the external index is the storage layer's side of `create`.
    pub fn create(name: String, description: String, can_overdraw: bool) -> (r: Account)
        ensures
            r@.name == name@,
            r@.description == description@,
            r@.filepath == filepath_chars(name@),
            r@.balance == 0,
            r@.can_overdraw == can_overdraw,
            r@.transactions =~= Seq::<TxModel>::empty(),
            account_wf(r@),
    {
        let u = replace_spaces(name.as_str());
        let lc = lowercase(u.as_str());
        let mut fp = String::from_str(".");
        fp.append(lc.as_str());
        fp.append(".finance");
        proof {
            assert(fp@ =~= filepath_chars(name@));
        }
        let ts: Vec<Transaction> = Vec::new();
        proof {
            assert(views_of(ts@) =~= Seq::<TxModel>::empty());
        }
        Account {
            name,
            description,
            filepath: fp,
            balance: 0,
            can_overdraw,
            transactions: ts,
        }
    }

    /// Reconstructs an account from its stored text against the given
    /// day: parses the header, loads every nonempty transaction line,
    /// runs recurrence catch-up on each loaded template, and recomputes
    /// the balance from the full log. Fails with `MalformedRecord` when
    /// the header has fewer than three fields or its overdraw flag is
    /// not a boolean, and propagates the first transaction-parse
    /// failure.
    #[verifier::loop_isolation(false)]
    pub fn load_at(content: &str, filepath: String, today: Date) -> (r: Result<
        Account,
        AccountError,
    >)
        requires
            date_storable(today),
        ensures
            r matches Ok(a) ==> spec_load(content@, filepath@, today) == Ok::<
                AccountModel,
                AccountError,
            >(a@) && account_wf(a@),
            r matches Err(e) ==> spec_load(content@, filepath@, today) == Err::<
                AccountModel,
                AccountError,
            >(e),
    {
        let lines = split_str(content, '\n');
        let ghost sl = split_chars(content@, '\n');
        proof {
            assert(lines@[0]@ == sl[0]);
        }
        let header = split_str(lines[0], ';');
        let ghost hf = split_chars(sl[0], ';');
        if header.len() < 3 {
            return Err(AccountError::MalformedRecord);
        }
        proof {
            assert(header@[0]@ == hf[0]);
            assert(header@[1]@ == hf[1]);
            assert(header@[2]@ == hf[2]);
        }
        let name = String::from_str(header[0]);
        let can_overdraw = if str_eq(header[1], "true") {
            true
        } else if str_eq(header[1], "false") {
            false
        } else {
            return Err(AccountError::MalformedRecord);
        };
        let description = String::from_str(trim_str(header[2]));
        proof {
            assert(spec_parse_header(sl[0]) == Ok::<(Seq<char>, bool, Seq<char>), AccountError>(
                (hf[0], can_overdraw, trim_spec(hf[2])),
            ));
        }
        let mut transactions: Vec<Transaction> = Vec::new();
        let mut li: usize = 1;
        let n = lines.len();
        proof {
            assert(views_of(transactions@) =~= Seq::<TxModel>::empty());
        }
        while li < n
            invariant
                date_storable(today),
                n == lines@.len(),
                n == sl.len(),
                sl == split_chars(content@, '\n'),
                forall|i: int| 0 <= i < n ==> #[trigger] lines@[i]@ == sl[i],
                1 <= li <= n,
                forall|i: int|
                    0 <= i < views_of(transactions@).len() ==> tx_wf(
                        #[trigger] views_of(transactions@)[i],
                    ),
                spec_load_txs(sl.skip(1), today) == (match spec_load_txs(sl.skip(li as int), today) {
                    Ok(rest) => Ok::<Seq<TxModel>, AccountError>(views_of(transactions@) + rest),
                    Err(e) => Err::<Seq<TxModel>, AccountError>(e),
                }),
            decreases n - li,
        {
            let line = lines[li];
            proof {
                assert(line@ == sl[li as int]);
                assert(sl.skip(li as int)[0] == sl[li as int]);
                assert(sl.skip(li as int).skip(1) =~= sl.skip(li as int + 1));
                assert(sl.skip(li as int).len() > 0);
            }
            if line.unicode_len() == 0 {
                li = li + 1;
            } else {
                let ghost pre_txs = views_of(transactions@);
                let mut tx = match Transaction::load_from_string(String::from_str(line)) {
                    Ok(t) => t,
                    Err(e) => {
                        proof {
                            assert(spec_load_txs(sl.skip(li as int), today) == Err::<
                                Seq<TxModel>,
                                AccountError,
                            >(e));
                        }
                        return Err(e);
                    },
                };
                proof {
                    lemma_parse_tx_wf(sl[li as int]);
                    assert(tx_wf(tx@));
                    lemma_expand_wf(tx@, today);
                }
                let ghost t0 = tx@;
                tx.update(&mut transactions, today);
                let ghost mid = transactions@;
                transactions.push(tx);
                proof {
                    let occs = spec_expand(t0, today).0;
                    let t2 = spec_expand(t0, today).1;
                    assert(views_of(mid) == pre_txs + occs);
                    assert(tx@ == t2);
                    assert(views_of(transactions@) =~= views_of(mid).push(tx@));
                    assert(views_of(transactions@) =~= pre_txs + (occs + seq![t2]));
                    assert forall|i: int|
                        0 <= i < views_of(transactions@).len() implies tx_wf(
                        #[trigger] views_of(transactions@)[i],
                    ) by {
                        let v = views_of(transactions@);
                        if i < pre_txs.len() {
                            assert(v[i] == pre_txs[i]);
                        } else if i < pre_txs.len() + occs.len() {
                            assert(v[i] == occs[i - pre_txs.len()]);
                        } else {
                            assert(v[i] == t2);
                        }
                    }
                    let step = spec_load_txs(sl.skip(li as int), today);
                    let rest_r = spec_load_txs(sl.skip(li as int + 1), today);
                    match rest_r {
                        Ok(rest) => {
                            assert(step == Ok::<Seq<TxModel>, AccountError>(
                                occs + seq![t2] + rest,
                            ));
                            assert(pre_txs + (occs + seq![t2] + rest) =~= (pre_txs + (occs
                                + seq![t2])) + rest);
                            assert(pre_txs + (occs + seq![t2] + rest) =~= views_of(transactions@)
                                + rest);
                        },
                        Err(e) => {
                            assert(step == Err::<Seq<TxModel>, AccountError>(e));
                        },
                    }
                }
                li = li + 1;
            }
        }
        proof {
            assert(sl.skip(n as int) =~= Seq::<Seq<char>>::empty());
            assert(spec_load_txs(sl.skip(n as int), today) == Ok::<Seq<TxModel>, AccountError>(
                Seq::empty(),
            ));
            assert(views_of(transactions@) + Seq::<TxModel>::empty() =~= views_of(transactions@));
        }
        let balance = compute_balance(&transactions);
        let a = Account {
            name,
            description,
            filepath,
            balance,
            can_overdraw,
            transactions,
        };
        proof {
            assert(spec_load(content@, filepath@, today) == Ok::<AccountModel, AccountError>(a@));
        }
        Ok(a)
    }

    /// Reconstructs an account from its stored text against the current
    /// UTC date.
    pub fn load(content: &str, filepath: String) -> (r: Result<Account, AccountError>)
        ensures
            exists|t: Date| date_storable(t) && #[trigger] load_post(content@, filepath@, t, r),
    {
        let t = today();
        let r = Account::load_at(content, filepath, t);
        proof {
            assert(load_post(content@, filepath@, t, r));
        }
        r
    }

    /// The stored text of this account: the header line, one line per
    /// transaction in log order. Writing it out is a full rewrite of
    /// the backing file.
    #[verifier::loop_isolation(false)]
    pub fn save(&self) -> (r: String)
        requires
            forall|i: int|
                0 <= i < self@.transactions.len() ==> date_valid(
                    #[trigger] self@.transactions[i].date,
                ),
        ensures
            r@ == spec_save(self@),
    {
        let mut s = self.name.clone();
        s.append(";");
        if self.can_overdraw {
            s.append("true");
        } else {
            s.append("false");
        }
        s.append(";");
        s.append(self.description.as_str());
        s.append("\n");
        proof {
            reveal_strlit(";");
            reveal_strlit("\n");
            assert(s@ =~= header_chars(self@));
            assert(self@.transactions.take(0) =~= Seq::<TxModel>::empty());
        }
        let n = self.transactions.len();
        let mut i: usize = 0;
        while i < n
            invariant
                0 <= i <= n,
                s@ == header_chars(self@) + spec_save_txs(self@.transactions.take(i as int)),
            decreases n - i,
        {
            proof {
                assert(self@.transactions[i as int] == self.transactions@[i as int]@);
            }
            let line = self.transactions[i].save_to_string();
            s.append(line.as_str());
            s.append("\n");
            proof {
                reveal_strlit("\n");
                let v = self@.transactions;
                assert(v.take(i + 1).drop_last() =~= v.take(i as int));
                assert(v.take(i + 1).last() == v[i as int]);
                assert(s@ =~= header_chars(self@) + spec_save_txs(v.take(i + 1)));
            }
            i = i + 1;
        }
        proof {
            assert(self@.transactions.take(n as int) =~= self@.transactions);
        }
        s
    }

    /// Display text of the account: name, two-decimal balance and
    /// description.
    pub fn display_string(&self) -> (r: String)
        ensures
            r@ == account_display_chars(self@),
    {
        let mut s = self.name.clone();
        s.append("(");
        let b = fmt_balance_display(self.balance);
        s.append(b.as_str());
        s.append("): ");
        s.append(self.description.as_str());
        proof {
            assert(s@ =~= account_display_chars(self@));
        }
        s
    }

    /// Records an expense dated `date`: the amount is normalized to be
    /// negative, and the overdraw policy is enforced before any change.
    /// Denied with `NoOverdraw`, naming the account, exactly when the
    /// account cannot overdraw and the new balance would fall below
    /// zero; the log and balance are then untouched.
    pub fn spent_on(&mut self, amount: Amount, description: String, date: Date) -> (r: Result<
        (),
        AccountError,
    >)
        requires
            account_wf(old(self)@),
            date_storable(date),
        ensures
            account_wf(final(self)@),
            final(self)@.name == old(self)@.name,
            final(self)@.description == old(self)@.description,
            final(self)@.filepath == old(self)@.filepath,
            final(self)@.can_overdraw == old(self)@.can_overdraw,
            r is Err <==> !old(self)@.can_overdraw && old(self)@.balance + expense_value(
                amount.nanos as int,
            ) < 0,
            r matches Err(e) ==> final(self)@ == old(self)@ && (e matches AccountError::NoOverdraw(
                m,
            ) && m@ == old(self)@.name),
            r is Ok ==> final(self)@.transactions == old(self)@.transactions.push(
                TxModel {
                    date,
                    amount: expense_value(amount.nanos as int),
                    description: description@,
                    interval: None,
                    last_occurrence: None,
                },
            ) && final(self)@.balance == old(self)@.balance + expense_value(amount.nanos as int),
    {
        let value: i64 = if amount.nanos > 0 {
            -amount.nanos
        } else {
            amount.nanos
        };
        let len = self.transactions.len();
        proof {
            lemma_views_amount_bounded(self.transactions@);
            lemma_sum_bounded(self@.transactions);
        }
        if !self.can_overdraw && self.balance + (value as i128) < 0 {
            return Err(AccountError::NoOverdraw(self.name.clone()));
        }
        let ghost pre = self@.transactions;
        let tx = Transaction::new(date, Amount { nanos: value }, description, None, None);
        let ghost txm = tx@;
        self.transactions.push(tx);
        self.balance = self.balance + value as i128;
        proof {
            assert(self@.transactions =~= pre.push(txm));
            lemma_sum_push(pre, txm);
            assert forall|i: int|
                0 <= i < self@.transactions.len() implies tx_wf(
                #[trigger] self@.transactions[i],
            ) by {
                if i < pre.len() {
                    assert(self@.transactions[i] == pre[i]);
                }
            }
        }
        Ok(())
    }

    /// Records an expense dated today.
    pub fn spent(&mut self, amount: Amount, description: String) -> (r: Result<(), AccountError>)
        requires
            account_wf(old(self)@),
        ensures
            account_wf(final(self)@),
            spent_post(old(self)@, final(self)@, amount.nanos as int, description@, r),
    {
        let d = today();
        let ghost desc = description@;
        let r = self.spent_on(amount, description, d);
        proof {
            if r is Ok {
                assert(date_storable(d) && self@.transactions == old(self)@.transactions.push(
                    TxModel {
                        date: d,
                        amount: expense_value(amount.nanos as int),
                        description: desc,
                        interval: None,
                        last_occurrence: None,
                    },
                ));
            }
        }
        r
    }

    /// Records income dated `date`: the amount is stored as given and no
    /// overdraw check applies.
    pub fn got_on(&mut self, amount: Amount, description: String, date: Date)
        requires
            account_wf(old(self)@),
            date_storable(date),
        ensures
            account_wf(final(self)@),
            final(self)@.name == old(self)@.name,
            final(self)@.description == old(self)@.description,
            final(self)@.filepath == old(self)@.filepath,
            final(self)@.can_overdraw == old(self)@.can_overdraw,
            final(self)@.transactions == old(self)@.transactions.push(
                TxModel {
                    date,
                    amount: amount.nanos as int,
                    description: description@,
                    interval: None,
                    last_occurrence: None,
                },
            ),
            final(self)@.balance == old(self)@.balance + amount.nanos,
    {
        let len = self.transactions.len();
        proof {
            lemma_views_amount_bounded(self.transactions@);
            lemma_sum_bounded(self@.transactions);
        }
        let ghost pre = self@.transactions;
        let tx = Transaction::new(date, amount, description, None, None);
        let ghost txm = tx@;
        self.transactions.push(tx);
        self.balance = self.balance + amount.nanos as i128;
        proof {
            assert(self@.transactions =~= pre.push(txm));
            lemma_sum_push(pre, txm);
            assert forall|i: int|
                0 <= i < self@.transactions.len() implies tx_wf(
                #[trigger] self@.transactions[i],
            ) by {
                if i < pre.len() {
                    assert(self@.transactions[i] == pre[i]);
                }
            }
        }
    }

    /// Records income dated today.
    pub fn got(&mut self, amount: Amount, description: String)
        requires
            account_wf(old(self)@),
        ensures
            account_wf(final(self)@),
            got_post(old(self)@, final(self)@, amount.nanos as int, description@),
    {
        let d = today();
        let ghost desc = description@;
        self.got_on(amount, description, d);
        proof {
            assert(date_storable(d) && self@.transactions == old(self)@.transactions.push(
                TxModel {
                    date: d,
                    amount: amount.nanos as int,
                    description: desc,
                    interval: None,
                    last_occurrence: None,
                },
            ));
        }
    }

    /// Sets the balance to an absolute target by appending a single
    /// adjusting entry of `target - balance`, dated `date`. Denied with
    /// `NoOverdraw` when the adjustment is negative, the account cannot
    /// overdraw and the target lies below zero; fails with
    /// `AmountOutOfRange` when the adjustment cannot be carried by one
    /// stored amount. On success the balance equals the target exactly.
    pub fn set_on(&mut self, amount: Amount, description: String, date: Date) -> (r: Result<
        (),
        AccountError,
    >)
        requires
            account_wf(old(self)@),
            date_storable(date),
        ensures
            account_wf(final(self)@),
            final(self)@.name == old(self)@.name,
            final(self)@.description == old(self)@.description,
            final(self)@.filepath == old(self)@.filepath,
            final(self)@.can_overdraw == old(self)@.can_overdraw,
            r is Err <==> set_denied(old(self)@, amount.nanos as int) || set_out_of_range(
                old(self)@,
                amount.nanos as int,
            ),
            r matches Err(e) ==> final(self)@ == old(self)@ && (set_denied(
                old(self)@,
                amount.nanos as int,
            ) ==> (e matches AccountError::NoOverdraw(m) && m@ == old(self)@.name)) && (
            set_out_of_range(old(self)@, amount.nanos as int)
                ==> e == AccountError::AmountOutOfRange),
            r is Ok ==> final(self)@.transactions == old(self)@.transactions.push(
                TxModel {
                    date,
                    amount: amount.nanos - old(self)@.balance,
                    description: description@,
                    interval: None,
                    last_occurrence: None,
                },
            ) && final(self)@.balance == amount.nanos,
    {
        let len = self.transactions.len();
        proof {
            lemma_views_amount_bounded(self.transactions@);
            lemma_sum_bounded(self@.transactions);
        }
        let target: i128 = amount.nanos as i128;
        let adj: i128 = target - self.balance;
        if adj < 0 && !self.can_overdraw && amount.nanos < 0 {
            return Err(AccountError::NoOverdraw(self.name.clone()));
        }
        if adj < -9223372036854775808i128 || adj > 9223372036854775807i128 {
            return Err(AccountError::AmountOutOfRange);
        }
        let ghost pre = self@.transactions;
        let tx = Transaction::new(date, Amount { nanos: adj as i64 }, description, None, None);
        let ghost txm = tx@;
        self.transactions.push(tx);
        self.balance = target;
        proof {
            assert(self@.transactions =~= pre.push(txm));
            lemma_sum_push(pre, txm);
            assert forall|i: int|
                0 <= i < self@.transactions.len() implies tx_wf(
                #[trigger] self@.transactions[i],
            ) by {
                if i < pre.len() {
                    assert(self@.transactions[i] == pre[i]);
                }
            }
        }
        Ok(())
    }

    /// Sets the balance to an absolute target with an adjusting entry
    /// dated today.
    pub fn set(&mut self, amount: Amount, description: String) -> (r: Result<(), AccountError>)
        requires
            account_wf(old(self)@),
        ensures
            account_wf(final(self)@),
            set_post(old(self)@, final(self)@, amount.nanos as int, description@, r),
    {
        let d = today();
        let ghost desc = description@;
        let r = self.set_on(amount, description, d);
        proof {
            if r is Ok {
                assert(date_storable(d) && self@.transactions == old(self)@.transactions.push(
                    TxModel {
                        date: d,
                        amount: amount.nanos - old(self)@.balance,
                        description: desc,
                        interval: None,
                        last_occurrence: None,
                    },
                ));
            }
        }
        r
    }

    /// The backing-file name of this account.
    pub fn filepath(&self) -> (r: &String)
        ensures
            r@ == self@.filepath,
    {
        &self.filepath
    }

    /// The description of this account.
    pub fn description(&self) -> (r: &String)
        ensures
            r@ == self@.description,
    {
        &self.description
    }

    /// The overdraw policy of this account.
    pub fn can_overdraw(&self) -> (r: bool)
        ensures
            r == self@.can_overdraw,
    {
        self.can_overdraw
    }
}

}
