//! Recurrence periods of a transaction and their canonical text codes,
//! as stored in the fourth field of a persisted transaction line.

use vstd::prelude::*;
use crate::account::AccountError;
use crate::text::{has_char, str_eq};

verus! {

broadcast use vstd::string::group_string_axioms;

/// A recurrence period of a transaction template.
#[derive(Clone, Copy, PartialEq, Eq, Structural, Debug)]
pub enum Interval {
    Daily,
    Weekly,
    Biweekly,
    Monthly,
}

/// Canonical text code of each interval.
pub open spec fn interval_code_chars(iv: Interval) -> Seq<char> {
    match iv {
        Interval::Daily => "Daily"@,
        Interval::Weekly => "Weekly"@,
        Interval::Biweekly => "Biweekly"@,
        Interval::Monthly => "Monthly"@,
    }
}

/// Codes recognised when loading; exact match, case-sensitive.
pub open spec fn spec_interval_from_chars(s: Seq<char>) -> Result<Interval, AccountError> {
    if s == "Daily"@ {
        Ok(Interval::Daily)
    } else if s == "Weekly"@ {
        Ok(Interval::Weekly)
    } else if s == "Biweekly"@ {
        Ok(Interval::Biweekly)
    } else if s == "Monthly"@ {
        Ok(Interval::Monthly)
    } else {
        Err(AccountError::InvalidIntervalCode)
    }
}

/// Parses an interval code; fails with `InvalidIntervalCode` on any
/// text that is not one of the four canonical codes.
pub fn interval_from_string(s: String) -> (r: Result<Interval, AccountError>)
    ensures
        r == spec_interval_from_chars(s@),
{
    if str_eq(s.as_str(), "Daily") {
        Ok(Interval::Daily)
    } else if str_eq(s.as_str(), "Weekly") {
        Ok(Interval::Weekly)
    } else if str_eq(s.as_str(), "Biweekly") {
        Ok(Interval::Biweekly)
    } else if str_eq(s.as_str(), "Monthly") {
        Ok(Interval::Monthly)
    } else {
        Err(AccountError::InvalidIntervalCode)
    }
}

impl Interval {
    /// Canonical serialization of the interval.
    pub fn to_code(&self) -> (r: String)
        ensures
            r@ == interval_code_chars(*self),
    {
        match self {
            Interval::Daily => String::from_str("Daily"),
            Interval::Weekly => String::from_str("Weekly"),
            Interval::Biweekly => String::from_str("Biweekly"),
            Interval::Monthly => String::from_str("Monthly"),
        }
    }
}

/// Reading a canonical code back yields the interval it came from.
pub proof fn lemma_interval_code_round_trip(iv: Interval)
    ensures
        spec_interval_from_chars(interval_code_chars(iv)) == Ok::<Interval, AccountError>(iv),
{
    reveal_strlit("Daily");
    reveal_strlit("Weekly");
    reveal_strlit("Biweekly");
    reveal_strlit("Monthly");
    match iv {
        Interval::Daily => {
            assert(interval_code_chars(iv) == "Daily"@);
        },
        Interval::Weekly => {
            assert("Weekly"@.len() == 6);
            assert("Daily"@.len() == 5);
            assert("Weekly"@ != "Daily"@);
        },
        Interval::Biweekly => {
            assert("Biweekly"@.len() == 8);
            assert("Daily"@.len() == 5);
            assert("Weekly"@.len() == 6);
            assert("Biweekly"@ != "Daily"@);
            assert("Biweekly"@ != "Weekly"@);
        },
        Interval::Monthly => {
            assert("Monthly"@.len() == 7);
            assert("Daily"@.len() == 5);
            assert("Weekly"@.len() == 6);
            assert("Biweekly"@.len() == 8);
            assert("Monthly"@ != "Daily"@);
            assert("Monthly"@ != "Weekly"@);
            assert("Monthly"@ != "Biweekly"@);
        },
    }
}

/// No canonical code holds a field or line separator, so a code can sit
/// as the last field of a stored line.
pub proof fn lemma_interval_code_clean(iv: Interval)
    ensures
        !has_char(interval_code_chars(iv), ';'),
        !has_char(interval_code_chars(iv), '\n'),
{
    reveal_strlit("Daily");
    reveal_strlit("Weekly");
    reveal_strlit("Biweekly");
    reveal_strlit("Monthly");
}

}
