//! Character-level helpers shared by the parsers and formatters of the
//! ledger: decimal digit sequences, separator search, splitting and
//! trimming, all specified over `Seq<char>`.

use vstd::prelude::*;

verus! {

pub open spec fn is_digit_char(c: char) -> bool {
    '0' <= c && c <= '9'
}

/// Numeric value of a decimal digit character.
pub open spec fn digit_value(c: char) -> int {
    c as int - '0' as int
}

/// The decimal digit character for a value below ten.
pub open spec fn digit_char(d: int) -> char {
    if d == 0 {
        '0'
    } else if d == 1 {
        '1'
    } else if d == 2 {
        '2'
    } else if d == 3 {
        '3'
    } else if d == 4 {
        '4'
    } else if d == 5 {
        '5'
    } else if d == 6 {
        '6'
    } else if d == 7 {
        '7'
    } else if d == 8 {
        '8'
    } else {
        '9'
    }
}

/// Canonical decimal rendering of a natural number, most significant
/// digit first, with no leading zeros ("0" for zero).
pub open spec fn dec_digits(n: nat) -> Seq<char>
    decreases n,
{
    if n < 10 {
        seq![digit_char(n as int)]
    } else {
        dec_digits(n / 10).push(digit_char((n % 10) as int))
    }
}

/// `dec_digits` left-padded with zeros to at least `w` characters.
pub open spec fn zero_pad(n: nat, w: nat) -> Seq<char> {
    if dec_digits(n).len() >= w {
        dec_digits(n)
    } else {
        Seq::new((w - dec_digits(n).len()) as nat, |i: int| '0') + dec_digits(n)
    }
}

/// Value of a sequence of decimal digit characters (0 for the empty
/// sequence; leading zeros are allowed and do not change the value).
pub open spec fn digits_val(s: Seq<char>) -> int
    decreases s.len(),
{
    if s.len() == 0 {
        0
    } else {
        digits_val(s.drop_last()) * 10 + digit_value(s.last())
    }
}

pub open spec fn all_digits(s: Seq<char>) -> bool {
    forall|i: int| 0 <= i < s.len() ==> is_digit_char(#[trigger] s[i])
}

pub open spec fn pow10(k: nat) -> int
    decreases k,
{
    if k == 0 {
        1
    } else {
        10 * pow10((k - 1) as nat)
    }
}

pub open spec fn has_char(s: Seq<char>, c: char) -> bool {
    exists|i: int| 0 <= i < s.len() && s[i] == c
}

/// Index of the first occurrence of `c` in `s`, or `s.len()` if absent.
pub open spec fn find_char(s: Seq<char>, c: char) -> int
    decreases s.len(),
{
    if s.len() == 0 {
        0
    } else if s[0] == c {
        0
    } else {
        1 + find_char(s.skip(1), c)
    }
}

/// Length of the longest prefix of `s` made of decimal digits.
pub open spec fn digit_span(s: Seq<char>) -> int
    decreases s.len(),
{
    if s.len() == 0 {
        0
    } else if !is_digit_char(s[0]) {
        0
    } else {
        1 + digit_span(s.skip(1))
    }
}

/// Fields of `s` around the separator `sep`; always at least one field.
pub open spec fn split_chars(s: Seq<char>, sep: char) -> Seq<Seq<char>>
    decreases s.len(),
    via split_chars_decreases
{
    let i = find_char(s, sep);
    if !has_char(s, sep) {
        seq![s]
    } else {
        seq![s.take(i)] + split_chars(s.skip(i + 1), sep)
    }
}

#[via_fn]
proof fn split_chars_decreases(s: Seq<char>, sep: char) {
    lemma_find_char_props(s, sep);
}

/// Fields put back together around the separator.
pub open spec fn join_chars(ps: Seq<Seq<char>>, sep: char) -> Seq<char>
    decreases ps.len(),
{
    if ps.len() == 0 {
        Seq::empty()
    } else if ps.len() == 1 {
        ps[0]
    } else {
        ps[0] + seq![sep] + join_chars(ps.skip(1), sep)
    }
}

pub open spec fn is_space_char(c: char) -> bool {
    c == ' ' || c == '\t' || c == '\r' || c == '\n'
}

pub open spec fn trim_start_spec(s: Seq<char>) -> Seq<char>
    decreases s.len(),
{
    if s.len() > 0 && is_space_char(s[0]) {
        trim_start_spec(s.skip(1))
    } else {
        s
    }
}

pub open spec fn trim_end_spec(s: Seq<char>) -> Seq<char>
    decreases s.len(),
{
    if s.len() > 0 && is_space_char(s.last()) {
        trim_end_spec(s.drop_last())
    } else {
        s
    }
}

/// `s` with leading and trailing blanks removed.
pub open spec fn trim_spec(s: Seq<char>) -> Seq<char> {
    trim_end_spec(trim_start_spec(s))
}

pub proof fn lemma_find_char_props(s: Seq<char>, c: char)
    ensures
        0 <= find_char(s, c) <= s.len(),
        forall|j: int| 0 <= j < find_char(s, c) ==> s[j] != c,
        find_char(s, c) < s.len() ==> s[find_char(s, c)] == c,
        has_char(s, c) <==> find_char(s, c) < s.len(),
    decreases s.len(),
{
    if s.len() == 0 {
    } else if s[0] == c {
    } else {
        lemma_find_char_props(s.skip(1), c);
        assert forall|j: int| 0 <= j < find_char(s, c) implies s[j] != c by {
            if j > 0 {
                assert(s.skip(1)[j - 1] == s[j]);
            }
        }
        if has_char(s, c) {
            let i = choose|i: int| 0 <= i < s.len() && s[i] == c;
            assert(s.skip(1)[i - 1] == c);
        }
        if find_char(s, c) < s.len() {
            assert(s[find_char(s, c)] == s.skip(1)[find_char(s.skip(1), c)]);
            assert(has_char(s, c));
        }
    }
}

/// A position with no occurrence before it, holding `c` or at the end,
/// is exactly `find_char`.
pub proof fn lemma_find_char_unique(s: Seq<char>, c: char, i: int)
    requires
        0 <= i <= s.len(),
        forall|j: int| 0 <= j < i ==> s[j] != c,
        i == s.len() || s[i] == c,
    ensures
        find_char(s, c) == i,
{
    lemma_find_char_props(s, c);
    let f = find_char(s, c);
    if f < i {
        assert(s[f] != c);
    }
    if i < f {
        assert(s[i] != c);
    }
}

pub proof fn lemma_digit_span_props(s: Seq<char>)
    ensures
        0 <= digit_span(s) <= s.len(),
        forall|j: int| 0 <= j < digit_span(s) ==> is_digit_char(#[trigger] s[j]),
        digit_span(s) < s.len() ==> !is_digit_char(s[digit_span(s)]),
    decreases s.len(),
{
    if s.len() == 0 {
    } else if !is_digit_char(s[0]) {
    } else {
        lemma_digit_span_props(s.skip(1));
        assert forall|j: int| 0 <= j < digit_span(s) implies is_digit_char(s[j]) by {
            if j > 0 {
                assert(s.skip(1)[j - 1] == s[j]);
            }
        }
        if digit_span(s) < s.len() {
            assert(s[digit_span(s)] == s.skip(1)[digit_span(s.skip(1))]);
        }
    }
}

pub proof fn lemma_digit_span_unique(s: Seq<char>, i: int)
    requires
        0 <= i <= s.len(),
        forall|j: int| 0 <= j < i ==> is_digit_char(#[trigger] s[j]),
        i == s.len() || !is_digit_char(s[i]),
    ensures
        digit_span(s) == i,
{
    lemma_digit_span_props(s);
    let f = digit_span(s);
    if f < i {
        assert(is_digit_char(s[f]));
    }
    if i < f {
        assert(is_digit_char(s[i]));
    }
}

pub proof fn lemma_digit_char_value(d: int)
    requires
        0 <= d <= 9,
    ensures
        digit_value(digit_char(d)) == d,
        is_digit_char(digit_char(d)),
{
}

pub proof fn lemma_dec_digits_props(n: nat)
    ensures
        dec_digits(n).len() >= 1,
        all_digits(dec_digits(n)),
        digits_val(dec_digits(n)) == n,
    decreases n,
{
    if n < 10 {
        lemma_digit_char_value(n as int);
        let s = dec_digits(n);
        assert(s == seq![digit_char(n as int)]);
        assert(s.drop_last() =~= Seq::<char>::empty());
        assert(digits_val(s) == digits_val(s.drop_last()) * 10 + digit_value(s.last()));
    } else {
        lemma_dec_digits_props(n / 10);
        lemma_digit_char_value((n % 10) as int);
        let s = dec_digits(n);
        let p = dec_digits(n / 10);
        assert(s == p.push(digit_char((n % 10) as int)));
        assert(s.drop_last() == p);
        assert(all_digits(s)) by {
            assert forall|i: int| 0 <= i < s.len() implies is_digit_char(s[i]) by {
                if i < p.len() {
                    assert(s[i] == p[i]);
                }
            }
        }
        assert(digits_val(s) == (n / 10) * 10 + (n % 10));
    }
}

pub proof fn lemma_digits_val_drop_zeros(k: nat, s: Seq<char>)
    ensures
        digits_val(Seq::new(k, |i: int| '0') + s) == digits_val(s),
    decreases s.len(),
{
    let z = Seq::new(k, |i: int| '0');
    if s.len() == 0 {
        assert(z + s == z);
        lemma_digits_val_zeros(k);
    } else {
        lemma_digits_val_drop_zeros(k, s.drop_last());
        assert((z + s).drop_last() == z + s.drop_last());
        assert((z + s).last() == s.last());
    }
}

pub proof fn lemma_digits_val_zeros(k: nat)
    ensures
        digits_val(Seq::new(k, |i: int| '0')) == 0,
    decreases k,
{
    let z = Seq::new(k, |i: int| '0');
    if k == 0 {
        assert(z.len() == 0);
    } else {
        lemma_digits_val_zeros((k - 1) as nat);
        assert(z.drop_last() == Seq::new((k - 1) as nat, |i: int| '0'));
        assert(digit_value(z.last()) == 0);
    }
}

pub proof fn lemma_zero_pad_props(n: nat, w: nat)
    ensures
        zero_pad(n, w).len() >= w,
        zero_pad(n, w).len() >= 1,
        all_digits(zero_pad(n, w)),
        digits_val(zero_pad(n, w)) == n,
{
    lemma_dec_digits_props(n);
    let d = dec_digits(n);
    if d.len() < w {
        let k = (w - d.len()) as nat;
        let z = Seq::new(k, |i: int| '0');
        lemma_digits_val_drop_zeros(k, d);
        assert forall|i: int| 0 <= i < (z + d).len() implies is_digit_char(#[trigger] (z + d)[i]) by {
            if i < k {
                assert((z + d)[i] == '0');
            } else {
                assert((z + d)[i] == d[i - k]);
            }
        }
    }
}

/// Appending anything that does not start with a digit after a run of
/// digits leaves the digit span at the run's length.
pub proof fn lemma_digit_span_concat(a: Seq<char>, rest: Seq<char>)
    requires
        all_digits(a),
        rest.len() == 0 || !is_digit_char(rest[0]),
    ensures
        digit_span(a + rest) == a.len(),
{
    let s = a + rest;
    assert forall|j: int| 0 <= j < a.len() implies is_digit_char(#[trigger] s[j]) by {
        assert(s[j] == a[j]);
    }
    if a.len() < s.len() {
        assert(s[a.len() as int] == rest[0]);
    }
    lemma_digit_span_unique(s, a.len() as int);
}

pub proof fn lemma_split_no_sep(s: Seq<char>, sep: char)
    requires
        !has_char(s, sep),
    ensures
        split_chars(s, sep) == seq![s],
{
}

/// Splitting `a + sep + b` peels off `a` as the first field when `a`
/// holds no separator.
pub proof fn lemma_split_concat(a: Seq<char>, sep: char, b: Seq<char>)
    requires
        !has_char(a, sep),
    ensures
        split_chars(a + seq![sep] + b, sep) == seq![a] + split_chars(b, sep),
{
    let s = a + seq![sep] + b;
    assert forall|j: int| 0 <= j < a.len() implies s[j] != sep by {
        assert(s[j] == a[j]);
    }
    assert(s[a.len() as int] == sep);
    lemma_find_char_unique(s, sep, a.len() as int);
    assert(has_char(s, sep));
    assert(s.take(a.len() as int) == a);
    assert(s.skip(a.len() as int + 1) == b);
}

pub proof fn lemma_digits_val_nonneg(s: Seq<char>)
    requires
        all_digits(s),
    ensures
        digits_val(s) >= 0,
    decreases s.len(),
{
    if s.len() > 0 {
        assert(all_digits(s.drop_last())) by {
            assert(forall|i: int| 0 <= i < s.len() - 1 ==> s.drop_last()[i] == s[i]);
        }
        lemma_digits_val_nonneg(s.drop_last());
        assert(is_digit_char(s.last()));
    }
}

/// Bound on the value of a digit run by its length.
pub proof fn lemma_digits_val_bound(s: Seq<char>)
    requires
        all_digits(s),
    ensures
        0 <= digits_val(s) < pow10(s.len()),
    decreases s.len(),
{
    if s.len() == 0 {
    } else {
        assert(all_digits(s.drop_last())) by {
            assert(forall|i: int| 0 <= i < s.len() - 1 ==> s.drop_last()[i] == s[i]);
        }
        lemma_digits_val_bound(s.drop_last());
        assert(is_digit_char(s.last()));
        assert(digit_value(s.last()) <= 9);
        assert(pow10(s.len()) == 10 * pow10((s.len() - 1) as nat));
    }
}

/// The canonical rendering of `n` has at most `k` digits exactly when
/// `n < pow10(k)` (for `k >= 1`).
pub proof fn lemma_dec_digits_len(n: nat, k: nat)
    requires
        k >= 1,
    ensures
        dec_digits(n).len() <= k <==> n < pow10(k),
    decreases k,
{
    lemma_dec_digits_props(n);
    if n < 10 {
        lemma_pow10_ge(k);
        assert(dec_digits(n).len() == 1);
    } else {
        assert(dec_digits(n).len() == dec_digits(n / 10).len() + 1);
        lemma_dec_digits_props(n / 10);
        if k == 1 {
            assert(pow10(1) == 10 * pow10(0));
        } else {
            lemma_dec_digits_len(n / 10, (k - 1) as nat);
            let p = pow10((k - 1) as nat);
            lemma_pow10_ge((k - 1) as nat);
            assert(pow10(k) == 10 * p);
            assert(n == 10 * (n / 10) + n % 10);
            if n / 10 < p {
                assert(10 * (n / 10) <= 10 * (p - 1)) by (nonlinear_arith)
                    requires n / 10 <= p - 1;
                assert(n < 10 * p);
            }
            if n < 10 * p {
                assert(n / 10 < p) by (nonlinear_arith)
                    requires n < 10 * p, p >= 1, n >= 0;
            }
        }
    }
}

pub proof fn lemma_pow10_values()
    ensures
        pow10(0) == 1,
        pow10(1) == 10,
        pow10(2) == 100,
        pow10(3) == 1000,
        pow10(4) == 10000,
        pow10(5) == 100000,
        pow10(6) == 1000000,
        pow10(7) == 10000000,
        pow10(8) == 100000000,
        pow10(9) == 1000000000,
        pow10(10) == 10000000000,
        pow10(11) == 100000000000,
{
    assert(pow10(0) == 1);
    assert(pow10(1) == 10);
    assert(pow10(2) == 100);
    assert(pow10(3) == 1000);
    assert(pow10(4) == 10000);
    assert(pow10(5) == 100000);
    assert(pow10(6) == 1000000);
    assert(pow10(7) == 10000000);
    assert(pow10(8) == 100000000);
    assert(pow10(9) == 1000000000);
    assert(pow10(10) == 10000000000);
    assert(pow10(11) == 100000000000);
}

pub proof fn lemma_pow10_mono(a: nat, b: nat)
    requires
        a <= b,
    ensures
        pow10(a) <= pow10(b),
    decreases b,
{
    if a < b {
        lemma_pow10_mono(a, (b - 1) as nat);
        lemma_pow10_ge((b - 1) as nat);
    }
}

pub proof fn lemma_pow10_ge(k: nat)
    ensures
        pow10(k) >= 1,
        k >= 1 ==> pow10(k) >= 10,
    decreases k,
{
    if k > 0 {
        lemma_pow10_ge((k - 1) as nat);
    }
}

/// Character comparison of two string slices.
pub fn str_eq(a: &str, b: &str) -> (r: bool)
    ensures
        r == (a@ == b@),
{
    let an = a.unicode_len();
    let bn = b.unicode_len();
    if an != bn {
        assert(a@ != b@);
        return false;
    }
    let mut i: usize = 0;
    while i < an
        invariant
            an == a@.len(),
            bn == b@.len(),
            an == bn,
            0 <= i <= an,
            forall|j: int| 0 <= j < i ==> a@[j] == b@[j],
        decreases an - i,
    {
        if a.get_char(i) != b.get_char(i) {
            return false;
        }
        i = i + 1;
    }
    proof {
        assert(a@ =~= b@);
    }
    true
}

pub fn is_digit(c: char) -> (r: bool)
    ensures
        r == is_digit_char(c),
{
    c >= '0' && c <= '9'
}

/// Parses a nonempty run of at most `max_len` decimal digits.
pub fn parse_digits(s: &str, max_len: usize) -> (r: Option<u64>)
    requires
        max_len <= 9,
    ensures
        r == if 1 <= s@.len() <= max_len && all_digits(s@) {
            Some(digits_val(s@) as u64)
        } else {
            None::<u64>
        },
{
    let n = s.unicode_len();
    if n < 1 || n > max_len {
        return None;
    }
    let mut acc: u64 = 0;
    let mut i: usize = 0;
    proof {
        assert(s@.take(0) =~= Seq::<char>::empty());
    }
    while i < n
        invariant
            n == s@.len(),
            1 <= n <= 9,
            0 <= i <= n,
            all_digits(s@.take(i as int)),
            acc as int == digits_val(s@.take(i as int)),
            (acc as int) < pow10(i as nat),
        decreases n - i,
    {
        let c = s.get_char(i);
        if !is_digit(c) {
            assert(!all_digits(s@));
            return None;
        }
        let d: u32 = (c as u32) - 48;
        proof {
            assert('0' as int == 48);
            assert('9' as int == 57);
            assert(d as int == digit_value(c));
            lemma_pow10_values();
            lemma_pow10_mono(i as nat, 8);
            assert(acc * 10 + d < 10 * pow10(i as nat));
        }
        acc = acc * 10 + d as u64;
        i = i + 1;
        proof {
            let t = s@.take(i as int);
            assert(t.drop_last() =~= s@.take(i as int - 1));
            assert(t.last() == c);
            assert(all_digits(t)) by {
                assert(forall|j: int|
                    0 <= j < i - 1 ==> t[j] == #[trigger] s@.take(i as int - 1)[j]);
            }
        }
    }
    proof {
        assert(s@.take(n as int) =~= s@);
    }
    Some(acc)
}

/// One-character string for a decimal digit value.
pub fn digit_str(d: u64) -> (r: &'static str)
    requires
        d < 10,
    ensures
        r@ =~= seq![digit_char(d as int)],
{
    proof {
        reveal_strlit("0");
        reveal_strlit("1");
        reveal_strlit("2");
        reveal_strlit("3");
        reveal_strlit("4");
        reveal_strlit("5");
        reveal_strlit("6");
        reveal_strlit("7");
        reveal_strlit("8");
        reveal_strlit("9");
    }
    match d {
        0 => "0",
        1 => "1",
        2 => "2",
        3 => "3",
        4 => "4",
        5 => "5",
        6 => "6",
        7 => "7",
        8 => "8",
        _ => "9",
    }
}

/// A character occurs in a concatenation exactly where it occurs in one
/// of the parts.
pub proof fn lemma_has_char_concat(x: Seq<char>, y: Seq<char>, c: char)
    ensures
        has_char(x + y, c) <==> has_char(x, c) || has_char(y, c),
{
    let s = x + y;
    if has_char(x, c) {
        let i = choose|i: int| 0 <= i < x.len() && x[i] == c;
        assert(s[i] == c);
    }
    if has_char(y, c) {
        let i = choose|i: int| 0 <= i < y.len() && y[i] == c;
        assert(s[i + x.len()] == c);
    }
    if has_char(s, c) {
        let i = choose|i: int| 0 <= i < s.len() && s[i] == c;
        if i < x.len() {
            assert(x[i] == c);
        } else {
            assert(y[i - x.len()] == c);
        }
    }
}

/// A run of digits holds no other character.
pub proof fn lemma_all_digits_no_char(s: Seq<char>, c: char)
    requires
        all_digits(s),
        !is_digit_char(c),
    ensures
        !has_char(s, c),
{
    if has_char(s, c) {
        let i = choose|i: int| 0 <= i < s.len() && s[i] == c;
        assert(is_digit_char(s[i]));
    }
}

/// `trim_start_spec` drops exactly the leading run of blanks.
pub proof fn lemma_trim_start_skip(s: Seq<char>, j: int)
    requires
        0 <= j <= s.len(),
        forall|k: int| 0 <= k < j ==> is_space_char(#[trigger] s[k]),
        j == s.len() || !is_space_char(s[j]),
    ensures
        trim_start_spec(s) == s.skip(j),
    decreases j,
{
    if j == 0 {
        assert(s.skip(0) == s);
    } else {
        assert(is_space_char(s[0]));
        lemma_trim_start_skip(s.skip(1), j - 1);
        assert(s.skip(1).skip(j - 1) =~= s.skip(j));
    }
}

/// `trim_end_spec` drops exactly the trailing run of blanks.
pub proof fn lemma_trim_end_take(s: Seq<char>, m: int)
    requires
        0 <= m <= s.len(),
        forall|k: int| m <= k < s.len() ==> is_space_char(#[trigger] s[k]),
        m == 0 || !is_space_char(s[m - 1]),
    ensures
        trim_end_spec(s) == s.take(m),
    decreases s.len(),
{
    if m == s.len() {
        assert(s.take(m) == s);
        if s.len() > 0 {
            assert(!is_space_char(s.last()));
        }
    } else {
        assert(is_space_char(s.last()));
        lemma_trim_end_take(s.drop_last(), m);
        assert(s.drop_last().take(m) =~= s.take(m));
    }
}

pub fn is_space(c: char) -> (r: bool)
    ensures
        r == is_space_char(c),
{
    c == ' ' || c == '\t' || c == '\r' || c == '\n'
}

/// Splits `s` at every occurrence of `sep`.
pub fn split_str<'a>(s: &'a str, sep: char) -> (parts: Vec<&'a str>)
    ensures
        parts@.len() == split_chars(s@, sep).len(),
        forall|i: int| 0 <= i < parts@.len() ==> #[trigger] parts@[i]@ == split_chars(s@, sep)[i],
    decreases s@.len(),
{
    let n = s.unicode_len();
    let mut i: usize = 0;
    while i < n && s.get_char(i) != sep
        invariant
            n == s@.len(),
            0 <= i <= n,
            forall|j: int| 0 <= j < i ==> s@[j] != sep,
        decreases n - i,
    {
        i = i + 1;
    }
    proof {
        lemma_find_char_unique(s@, sep, i as int);
        lemma_find_char_props(s@, sep);
    }
    let head = s.substring_char(0, i);
    let mut parts: Vec<&'a str> = Vec::new();
    parts.push(head);
    if i == n {
        proof {
            assert(!has_char(s@, sep));
            assert(head@ =~= s@);
        }
        parts
    } else {
        proof {
            assert(s@[i as int] == sep);
            assert(has_char(s@, sep));
            assert(head@ =~= s@.take(i as int));
        }
        let tail = s.substring_char(i + 1, n);
        proof {
            assert(tail@ =~= s@.skip(i as int + 1));
        }
        let mut rest = split_str(tail, sep);
        let ghost rest0 = rest@;
        parts.append(&mut rest);
        proof {
            let sp = split_chars(s@, sep);
            assert(sp == seq![s@.take(i as int)] + split_chars(s@.skip(i as int + 1), sep));
            assert forall|k: int| 0 <= k < parts@.len() implies #[trigger] parts@[k]@ == sp[k] by {
                if k > 0 {
                    assert(parts@[k] == rest0[k - 1]);
                }
            }
        }
        parts
    }
}

/// Removes leading and trailing blanks.
pub fn trim_str<'a>(s: &'a str) -> (r: &'a str)
    ensures
        r@ == trim_spec(s@),
{
    let n = s.unicode_len();
    let mut b: usize = 0;
    while b < n && is_space(s.get_char(b))
        invariant
            n == s@.len(),
            0 <= b <= n,
            forall|k: int| 0 <= k < b ==> is_space_char(#[trigger] s@[k]),
        decreases n - b,
    {
        b = b + 1;
    }
    let mut e: usize = n;
    while e > b && is_space(s.get_char(e - 1))
        invariant
            n == s@.len(),
            b <= e <= n,
            forall|k: int| e <= k < n ==> is_space_char(#[trigger] s@[k]),
        decreases e,
    {
        e = e - 1;
    }
    proof {
        lemma_trim_start_skip(s@, b as int);
        let t = s@.skip(b as int);
        let m = e - b;
        assert forall|k: int| m <= k < t.len() implies is_space_char(#[trigger] t[k]) by {
            assert(t[k] == s@[k + b]);
        }
        if m > 0 {
            assert(t[m - 1] == s@[e - 1]);
        }
        lemma_trim_end_take(t, m as int);
        assert(t.take(m as int) =~= s@.subrange(b as int, e as int));
    }
    s.substring_char(b, e)
}

/// Canonical decimal rendering of `n`, zero-padded to at least `w`
/// characters.
pub fn fmt_u64_padded(n: u64, w: usize) -> (r: String)
    ensures
        r@ == zero_pad(n as nat, w as nat),
{
    let digits = fmt_u64(n);
    let dl = digits.as_str().unicode_len();
    let mut s = String::new();
    let mut k: usize = dl;
    proof {
        reveal_strlit("0");
        assert(s@ =~= Seq::new((k - dl) as nat, |i: int| '0'));
    }
    while k < w
        invariant
            dl <= k,
            k <= w || k == dl,
            s@ =~= Seq::new((k - dl) as nat, |i: int| '0'),
        decreases w - k,
    {
        s.append("0");
        k = k + 1;
        proof {
            reveal_strlit("0");
            assert(s@ =~= Seq::new((k - dl) as nat, |i: int| '0'));
        }
    }
    s.append(digits.as_str());
    proof {
        if dl >= w {
            assert(s@ =~= dec_digits(n as nat));
        } else {
            assert(s@ =~= Seq::new((w - dl) as nat, |i: int| '0') + dec_digits(n as nat));
        }
    }
    s
}

/// Canonical decimal rendering of `n`.
pub fn fmt_u64(n: u64) -> (r: String)
    ensures
        r@ == dec_digits(n as nat),
    decreases n,
{
    if n < 10 {
        let mut s = String::new();
        s.append(digit_str(n));
        proof {
            assert(s@ =~= dec_digits(n as nat));
        }
        s
    } else {
        let mut s = fmt_u64(n / 10);
        s.append(digit_str(n % 10));
        proof {
            assert(s@ =~= dec_digits(n as nat));
        }
        s
    }
}

/// Canonical decimal rendering of a wide number, for derived balances.
pub fn fmt_u128(n: u128) -> (r: String)
    ensures
        r@ == dec_digits(n as nat),
    decreases n,
{
    if n < 10 {
        let mut s = String::new();
        s.append(digit_str(n as u64));
        proof {
            assert(s@ =~= dec_digits(n as nat));
        }
        s
    } else {
        let mut s = fmt_u128(n / 10);
        s.append(digit_str((n % 10) as u64));
        proof {
            assert(s@ =~= dec_digits(n as nat));
        }
        s
    }
}

}
