//! Monetary amounts. An amount is a signed fixed-point number with
//! nine fractional digits: negative for an expense, positive for
//! income. The stored text form is `-?digits.digits`, read liberally
//! (one to nine fractional digits, the point optional) and written
//! canonically with all nine.

use vstd::prelude::*;
use crate::account::AccountError;
use crate::text::{
    all_digits, dec_digits, digit_span, digit_value, digits_val, fmt_u64, fmt_u64_padded,
    has_char, is_digit, is_digit_char, lemma_all_digits_no_char, lemma_dec_digits_len,
    lemma_dec_digits_props, lemma_digit_span_concat, lemma_digit_span_unique,
    lemma_digits_val_bound, lemma_has_char_concat, lemma_pow10_mono, lemma_pow10_values,
    lemma_zero_pad_props, pow10, zero_pad,
};

verus! {

broadcast use vstd::string::group_string_axioms;

/// Stored units in one whole currency unit.
pub const AMOUNT_SCALE: u64 = 1000000000;

/// A signed monetary amount, counted in billionths of a unit.
#[derive(Clone, Copy, PartialEq, Eq, Structural, Debug)]
pub struct Amount {
    pub nanos: i64,
}

pub open spec fn abs_val(v: int) -> int {
    if v < 0 {
        -v
    } else {
        v
    }
}

/// Canonical text of an amount: optional minus sign, the whole part
/// without leading zeros, a point, and all nine fractional digits.
pub open spec fn fmt_amount_chars(v: int) -> Seq<char> {
    let sign: Seq<char> = if v < 0 {
        seq!['-']
    } else {
        Seq::empty()
    };
    sign + dec_digits((abs_val(v) / (AMOUNT_SCALE as int)) as nat) + seq!['.'] + zero_pad(
        (abs_val(v) % (AMOUNT_SCALE as int)) as nat,
        9,
    )
}

/// Display text of an amount: as the canonical form, but the fraction
/// truncated to two digits.
pub open spec fn fmt_amount_display_chars(v: int) -> Seq<char> {
    let sign: Seq<char> = if v < 0 {
        seq!['-']
    } else {
        Seq::empty()
    };
    sign + dec_digits((abs_val(v) / (AMOUNT_SCALE as int)) as nat) + seq!['.'] + zero_pad(
        ((abs_val(v) % (AMOUNT_SCALE as int)) / 10000000) as nat,
        2,
    )
}

/// A magnitude and a sign as a stored amount value, when it fits.
pub open spec fn amount_in_range(neg: bool, mag: int) -> Option<int> {
    if neg {
        if mag <= -(i64::MIN as int) {
            Some(-mag)
        } else {
            None
        }
    } else {
        if mag <= i64::MAX as int {
            Some(mag)
        } else {
            None
        }
    }
}

/// Amount texts accepted by the parser: an optional minus sign, a
/// nonempty run of digits, and optionally a point followed by one to
/// nine fractional digits; the value must fit a stored amount.
pub open spec fn spec_parse_amount(s: Seq<char>) -> Option<int> {
    let neg = s.len() > 0 && s[0] == '-';
    let b = if neg {
        s.skip(1)
    } else {
        s
    };
    let k = digit_span(b);
    if k == 0 {
        None
    } else if k == b.len() {
        amount_in_range(neg, digits_val(b) * (AMOUNT_SCALE as int))
    } else if b[k] == '.' {
        let f = b.skip(k + 1);
        if 1 <= f.len() <= 9 && all_digits(f) {
            amount_in_range(
                neg,
                digits_val(b.take(k)) * (AMOUNT_SCALE as int) + digits_val(f) * pow10(
                    (9 - f.len()) as nat,
                ),
            )
        } else {
            None
        }
    } else {
        None
    }
}

impl Amount {
    /// The amount's exact value in billionths of a unit.
    pub open spec fn value(self) -> int {
        self.nanos as int
    }

    pub fn new(nanos: i64) -> (r: Amount)
        ensures
            r.nanos == nanos,
    {
        Amount { nanos }
    }

    /// An amount of whole currency units.
    pub fn from_units(units: i64) -> (r: Amount)
        requires
            -9223372036 <= units <= 9223372036,
        ensures
            r.nanos == units * (AMOUNT_SCALE as int),
    {
        Amount { nanos: units * 1000000000 }
    }
}

/// `pow10` of a small exponent.
pub fn pow10_u64(k: u64) -> (r: u64)
    requires
        k <= 11,
    ensures
        r as int == pow10(k as nat),
{
    proof {
        lemma_pow10_values();
    }
    let mut r: u64 = 1;
    let mut i: u64 = 0;
    while i < k
        invariant
            0 <= i <= k <= 11,
            r as int == pow10(i as nat),
        decreases k - i,
    {
        proof {
            lemma_pow10_values();
            lemma_pow10_mono(i as nat + 1, 11);
        }
        r = r * 10;
        i = i + 1;
    }
    r
}

/// Canonical text of an amount.
pub fn fmt_amount(a: Amount) -> (r: String)
    ensures
        r@ == fmt_amount_chars(a.nanos as int),
{
    let neg = a.nanos < 0;
    let mag: u64 = if a.nanos >= 0 {
        a.nanos as u64
    } else {
        (-(a.nanos as i128)) as u64
    };
    proof {
        assert(mag as int == abs_val(a.nanos as int));
    }
    let mut s = String::new();
    if neg {
        s.append("-");
    }
    let ipart = fmt_u64(mag / 1000000000);
    s.append(ipart.as_str());
    s.append(".");
    let fpart = fmt_u64_padded(mag % 1000000000, 9);
    s.append(fpart.as_str());
    proof {
        reveal_strlit("-");
        reveal_strlit(".");
        assert(s@ =~= fmt_amount_chars(a.nanos as int));
    }
    s
}

/// Display text of an amount, the fraction truncated to two digits.
pub fn fmt_amount_display(a: Amount) -> (r: String)
    ensures
        r@ == fmt_amount_display_chars(a.nanos as int),
{
    let neg = a.nanos < 0;
    let mag: u64 = if a.nanos >= 0 {
        a.nanos as u64
    } else {
        (-(a.nanos as i128)) as u64
    };
    proof {
        assert(mag as int == abs_val(a.nanos as int));
    }
    let mut s = String::new();
    if neg {
        s.append("-");
    }
    let ipart = fmt_u64(mag / 1000000000);
    s.append(ipart.as_str());
    s.append(".");
    let fpart = fmt_u64_padded(mag % 1000000000 / 10000000, 2);
    s.append(fpart.as_str());
    proof {
        reveal_strlit("-");
        reveal_strlit(".");
        assert(s@ =~= fmt_amount_display_chars(a.nanos as int));
    }
    s
}

/// Parses an amount; fails with `InvalidAmount` on any text outside the
/// accepted grammar or value range.
pub fn parse_amount(s: &str) -> (r: Result<Amount, AccountError>)
    ensures
        r is Ok <==> spec_parse_amount(s@) is Some,
        r matches Ok(a) ==> spec_parse_amount(s@) == Some(a.nanos as int),
        r matches Err(e) ==> e == AccountError::InvalidAmount,
{
    let n = s.unicode_len();
    let mut i: usize = 0;
    let mut neg = false;
    if n > 0 && s.get_char(0) == '-' {
        neg = true;
        i = 1;
    }
    let ghost off: int = if neg {
        1
    } else {
        0
    };
    let ghost b: Seq<char> = if neg {
        s@.skip(1)
    } else {
        s@
    };
    proof {
        assert(b =~= s@.skip(off));
        assert(b.take(0) =~= Seq::<char>::empty());
        lemma_pow10_values();
    }
    let start = i;
    let mut ip: u64 = 0;
    let mut too_big = false;
    while i < n && is_digit(s.get_char(i))
        invariant
            n == s@.len(),
            b == s@.skip(off),
            off == start,
            (off == 1) == neg,
            0 <= off <= 1,
            start <= i <= n,
            all_digits(b.take(i - start)),
            !too_big ==> ip as int == digits_val(b.take(i - start)) && ip < 100000000001,
            too_big ==> digits_val(b.take(i - start)) >= 10000000000,
            too_big ==> i > start,
        decreases n - i,
    {
        let c = s.get_char(i);
        let ghost pre = b.take(i - start);
        proof {
            assert(b[i - start] == s@[i as int]);
            assert(b.take(i - start + 1).drop_last() =~= pre);
            assert(b.take(i - start + 1).last() == c);
            assert(all_digits(b.take(i - start + 1))) by {
                assert(forall|j: int|
                    0 <= j < i - start ==> b.take(i - start + 1)[j] == #[trigger] pre[j]);
            }
            assert('0' as int == 48);
        }
        if !too_big {
            if ip >= 10000000000 {
                too_big = true;
                proof {
                    assert(digits_val(b.take(i - start + 1)) == ip * 10 + digit_value(c));
                }
            } else {
                let d: u32 = (c as u32) - 48;
                proof {
                    assert(d as int == digit_value(c));
                }
                ip = ip * 10 + d as u64;
            }
        } else {
            proof {
                let cur = digits_val(b.take(i - start + 1));
                assert(cur == digits_val(pre) * 10 + digit_value(c));
                assert(digit_value(c) >= 0);
                assert(digits_val(pre) >= 10000000000);
            }
        }
        i = i + 1;
    }
    let ghost k = digit_span(b);
    proof {
        assert forall|j: int| 0 <= j < i - start implies is_digit_char(#[trigger] b[j]) by {
            assert(b.take(i - start as int)[j] == b[j]);
        }
        if (i as int) - start < b.len() {
            assert(b[i - start] == s@[i as int]);
        }
        lemma_digit_span_unique(b, i - start as int);
        assert(k == i - start);
    }
    if i == start {
        return Err(AccountError::InvalidAmount);
    }
    proof {
        assert(b.take(k) =~= b.take(i - start as int));
        if too_big {
            assert(digits_val(b.take(k)) >= 10000000000);
        }
    }
    let mut fv: u64 = 0;
    let mut fcount: u64 = 0;
    let mut frac_ok = true;
    if i < n {
        let c = s.get_char(i);
        if c != '.' {
            proof {
                assert(b[k] == s@[i as int]);
            }
            return Err(AccountError::InvalidAmount);
        }
        proof {
            assert(b[k] == '.');
        }
        i = i + 1;
        let fstart = i;
        let ghost f = b.skip(k + 1);
        proof {
            assert(f =~= s@.skip(i as int));
            assert(f.take(0) =~= Seq::<char>::empty());
        }
        while i < n && is_digit(s.get_char(i))
            invariant
                n == s@.len(),
                f == s@.skip(fstart as int),
                fstart <= i <= n,
                fcount == i - fstart,
                all_digits(f.take(i - fstart)),
                fcount <= 9 ==> fv as int == digits_val(f.take(i - fstart)),
                fcount <= 9 ==> (fv as int) < pow10(fcount as nat),
            decreases n - i,
        {
            let c = s.get_char(i);
            let ghost pre = f.take(i - fstart);
            proof {
                assert(f[i - fstart] == s@[i as int]);
                assert(f.take(i - fstart + 1).drop_last() =~= pre);
                assert(f.take(i - fstart + 1).last() == c);
                assert(all_digits(f.take(i - fstart + 1))) by {
                    assert(forall|j: int|
                        0 <= j < i - fstart ==> f.take(i - fstart + 1)[j] == #[trigger] pre[j]);
                }
                assert('0' as int == 48);
                lemma_pow10_values();
                if fcount < 9 {
                    lemma_pow10_mono(fcount as nat + 1, 9);
                }
            }
            if fcount < 9 {
                let d: u32 = (c as u32) - 48;
                proof {
                    assert(d as int == digit_value(c));
                }
                fv = fv * 10 + d as u64;
            }
            fcount = fcount + 1;
            i = i + 1;
        }
        proof {
            assert forall|j: int| 0 <= j < i - fstart implies is_digit_char(#[trigger] f[j]) by {
                assert(f.take(i - fstart as int)[j] == f[j]);
            }
        }
        if i < n {
            proof {
                assert(f[i - fstart] == s@[i as int]);
                assert(!all_digits(f));
            }
            return Err(AccountError::InvalidAmount);
        }
        proof {
            assert(f.take(i - fstart as int) =~= f);
        }
        if fcount < 1 || fcount > 9 {
            return Err(AccountError::InvalidAmount);
        }
        proof {
            assert(b.skip(k + 1) =~= f);
            assert(all_digits(b.skip(k + 1)));
            assert(1 <= b.skip(k + 1).len() <= 9);
            assert(fv as int == digits_val(b.skip(k + 1)));
            assert(b.skip(k + 1).len() == fcount);
        }
    } else {
        proof {
            assert(b.take(k) =~= b);
        }
    }
    if too_big {
        proof {
            lemma_pow10_values();
            if k == b.len() {
                assert(b.take(k) =~= b);
                assert(digits_val(b) * (AMOUNT_SCALE as int) >= 10000000000 * 1000000000) by (
                nonlinear_arith)
                    requires
                        digits_val(b) >= 10000000000,
                        AMOUNT_SCALE == 1000000000,
                ;
            } else {
                let f = b.skip(k + 1);
                crate::text::lemma_digits_val_nonneg(f);
                lemma_pow10_ge_zero((9 - f.len()) as nat);
                assert(digits_val(f) * pow10((9 - f.len()) as nat) >= 0) by (nonlinear_arith)
                    requires
                        digits_val(f) >= 0,
                        pow10((9 - f.len()) as nat) >= 1,
                ;
                assert(digits_val(b.take(k)) * (AMOUNT_SCALE as int) >= 10000000000 * 1000000000)
                    by (nonlinear_arith)
                    requires
                        digits_val(b.take(k)) >= 10000000000,
                        AMOUNT_SCALE == 1000000000,
                ;
            }
        }
        return Err(AccountError::InvalidAmount);
    }
    let pw = pow10_u64(9 - fcount);
    proof {
        lemma_pow10_values();
        if i < n || fcount > 0 {
            let f = b.skip(k + 1);
            lemma_digits_val_bound(f);
            assert(pow10(f.len()) * pow10((9 - f.len()) as nat) == pow10(9)) by {
                lemma_pow10_add(f.len(), (9 - f.len()) as nat);
            }
            assert(digits_val(f) * pow10((9 - f.len()) as nat) < pow10(9)) by (nonlinear_arith)
                requires
                    0 <= digits_val(f) < pow10(f.len()),
                    pow10((9 - f.len()) as nat) >= 1,
                    pow10(f.len()) >= 1,
                    pow10(f.len()) * pow10((9 - f.len()) as nat) == pow10(9),
                    pow10(9) == 1000000000,
            ;
        }
    }
    let frac: u64 = fv * pw;
    let mag: u128 = (ip as u128) * 1000000000 + frac as u128;
    let ghost smag: int = if fcount > 0 {
        digits_val(b.take(k)) * (AMOUNT_SCALE as int) + digits_val(b.skip(k + 1)) * pow10(
            (9 - b.skip(k + 1).len()) as nat,
        )
    } else {
        digits_val(b) * (AMOUNT_SCALE as int)
    };
    proof {
        assert(mag as int == smag);
    }
    if neg {
        if mag > 9223372036854775808 {
            return Err(AccountError::InvalidAmount);
        }
        let nn: i128 = -(mag as i128);
        Ok(Amount { nanos: nn as i64 })
    } else {
        if mag > 9223372036854775807 {
            return Err(AccountError::InvalidAmount);
        }
        Ok(Amount { nanos: mag as i64 })
    }
}

pub proof fn lemma_pow10_add(a: nat, bb: nat)
    ensures
        pow10(a) * pow10(bb) == pow10(a + bb),
    decreases a,
{
    if a == 0 {
        assert(pow10(0) == 1);
    } else {
        lemma_pow10_add((a - 1) as nat, bb);
        assert(pow10(a) == 10 * pow10((a - 1) as nat));
        assert((10 * pow10((a - 1) as nat)) * pow10(bb) == 10 * (pow10((a - 1) as nat) * pow10(
            bb,
        ))) by (nonlinear_arith);
        assert(pow10((a + bb) as nat) == 10 * pow10((a + bb - 1) as nat));
    }
}

pub proof fn lemma_pow10_ge_zero(k: nat)
    ensures
        pow10(k) >= 1,
{
    crate::text::lemma_pow10_ge(k);
}

/// The text of an amount holds only digits, `-` and `.`: no field or
/// line separator of the stored format.
pub proof fn lemma_fmt_amount_clean(v: int, c: char)
    requires
        !is_digit_char(c),
        c != '-',
        c != '.',
    ensures
        !has_char(fmt_amount_chars(v), c),
{
    let sign: Seq<char> = if v < 0 {
        seq!['-']
    } else {
        Seq::empty()
    };
    let q = (abs_val(v) / (AMOUNT_SCALE as int)) as nat;
    let r = (abs_val(v) % (AMOUNT_SCALE as int)) as nat;
    lemma_dec_digits_props(q);
    lemma_zero_pad_props(r, 9);
    lemma_all_digits_no_char(dec_digits(q), c);
    lemma_all_digits_no_char(zero_pad(r, 9), c);
    assert(!has_char(sign, c)) by {
        if has_char(sign, c) {
            let i = choose|i: int| 0 <= i < sign.len() && sign[i] == c;
            assert(sign[0] == '-');
        }
    }
    assert(!has_char(seq!['.'], c)) by {
        if has_char(seq!['.'], c) {
            let i = choose|i: int| 0 <= i < 1 && seq!['.'][i] == c;
            assert(seq!['.'][0] == '.');
        }
    }
    lemma_has_char_concat(sign, dec_digits(q), c);
    lemma_has_char_concat(sign + dec_digits(q), seq!['.'], c);
    lemma_has_char_concat(sign + dec_digits(q) + seq!['.'], zero_pad(r, 9), c);
}

/// Reading the canonical text of an amount back yields the same value.
pub proof fn lemma_amount_round_trip(v: int)
    requires
        i64::MIN <= v <= i64::MAX,
    ensures
        spec_parse_amount(fmt_amount_chars(v)) == Some(v),
{
    lemma_pow10_values();
    let a = abs_val(v);
    let q = (a / (AMOUNT_SCALE as int)) as nat;
    let r = (a % (AMOUNT_SCALE as int)) as nat;
    let body = dec_digits(q) + seq!['.'] + zero_pad(r, 9);
    let s = fmt_amount_chars(v);
    lemma_dec_digits_props(q);
    lemma_zero_pad_props(r, 9);
    let rest = seq!['.'] + zero_pad(r, 9);
    assert(body =~= dec_digits(q) + rest);
    assert(!is_digit_char('.'));
    lemma_digit_span_concat(dec_digits(q), rest);
    let b: Seq<char> = if v < 0 {
        s.skip(1)
    } else {
        s
    };
    assert(b =~= body);
    if v < 0 {
        assert(s[0] == '-');
        assert(s.len() > 0);
    } else {
        assert(s == body);
        assert(is_digit_char(body[0])) by {
            assert(body[0] == dec_digits(q)[0]);
        }
        assert(s[0] != '-');
    }
    let k = digit_span(b);
    assert(k == dec_digits(q).len());
    assert(k < b.len());
    assert(b[k] == '.') by {
        assert(b[k] == rest[0]);
    }
    assert(k > 0);
    assert(b.take(k) =~= dec_digits(q));
    let f = b.skip(k + 1);
    assert(f =~= zero_pad(r, 9));
    assert(f.len() == 9) by {
        assert(r < pow10(9));
        lemma_dec_digits_len(r, 9);
        assert(dec_digits(r).len() <= 9);
    }
    assert(digits_val(f) == r);
    assert(all_digits(f));
    assert(pow10((9 - f.len()) as nat) == 1);
    assert(digits_val(b.take(k)) == q);
    assert(q * (AMOUNT_SCALE as int) + r == a) by {
        assert(a == (AMOUNT_SCALE as int) * (a / (AMOUNT_SCALE as int)) + a % (
        AMOUNT_SCALE as int));
    }
    if v < 0 {
        assert(a <= -(i64::MIN as int));
        assert(amount_in_range(true, a) == Some(-a));
        assert(-a == v);
    } else {
        assert(a <= i64::MAX as int);
        assert(amount_in_range(false, a) == Some(a));
    }
}

}
