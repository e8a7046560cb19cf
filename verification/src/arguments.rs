//! Arguments passed to the ledger's commands: the free-form
//! `<amount> <name...>` argument text of a transaction command, and the
//! parsed options a command receives. Reading the command line itself
//! is the surrounding layer's work.

use vstd::prelude::*;
use crate::amount::{parse_amount, spec_parse_amount, Amount};
use crate::text::{join_chars, split_chars, split_str};

verus! {

broadcast use vstd::string::group_string_axioms;

#[derive(Debug)]
pub enum ArgsError {
    NoArgumentsSpecified(String),
}

/// Free-form arguments that relate to a transaction on an account: an
/// optional leading amount, the rest naming the account.
#[derive(Debug)]
pub struct AccountArgs {
    pub amount: Option<Amount>,
    pub name: String,
}

/// The images of a sequence of string slices.
pub open spec fn strs_views(s: Seq<&str>) -> Seq<Seq<char>> {
    s.map_values(|p: &str| p@)
}

/// The fields of `parts` from `start` on, joined with single spaces.
fn join_tail(parts: &Vec<&str>, start: usize) -> (r: String)
    requires
        start <= parts@.len(),
    ensures
        r@ == join_chars(strs_views(parts@).skip(start as int), ' '),
    decreases parts@.len() - start,
{
    let n = parts.len();
    let ghost vs = strs_views(parts@);
    if start == n {
        proof {
            assert(vs.skip(start as int) =~= Seq::<Seq<char>>::empty());
        }
        String::new()
    } else if start + 1 == n {
        proof {
            assert(vs.skip(start as int).len() == 1);
            assert(vs.skip(start as int)[0] == vs[start as int]);
            assert(vs[start as int] == parts@[start as int]@);
        }
        String::from_str(parts[start])
    } else {
        let mut s = String::from_str(parts[start]);
        s.append(" ");
        let rest = join_tail(parts, start + 1);
        s.append(rest.as_str());
        proof {
            reveal_strlit(" ");
            assert(vs.skip(start as int).len() >= 2);
            assert(vs.skip(start as int)[0] == vs[start as int]);
            assert(vs[start as int] == parts@[start as int]@);
            assert(vs.skip(start as int).skip(1) =~= vs.skip(start as int + 1));
            assert(s@ =~= join_chars(vs.skip(start as int), ' '));
        }
        s
    }
}

impl AccountArgs {
    /// Splits free-form command arguments at spaces: when the first
    /// field reads as an amount, the rest joined by spaces names the
    /// account; otherwise there is no amount and the whole text is the
    /// name. Splitting always yields at least one field, so the parse
    /// always succeeds.
    pub fn from_string(s: String) -> (r: Result<AccountArgs, ArgsError>)
        ensures
            r is Ok,
            r matches Ok(a) ==> {
                let parts = split_chars(s@, ' ');
                &&& (a.amount is Some <==> spec_parse_amount(parts[0]) is Some)
                &&& (a.amount matches Some(am) ==> spec_parse_amount(parts[0]) == Some(
                    am.nanos as int,
                ) && a.name@ == join_chars(parts.skip(1), ' '))
                &&& (a.amount is None ==> a.name@ == s@)
            },
    {
        let parts = split_str(s.as_str(), ' ');
        proof {
            let sp = split_chars(s@, ' ');
            assert(sp.len() >= 1);
            assert(parts@[0]@ == sp[0]);
        }
        match parse_amount(parts[0]) {
            Ok(am) => {
                let name = join_tail(&parts, 1);
                proof {
                    let sp = split_chars(s@, ' ');
                    assert(strs_views(parts@).skip(1) =~= sp.skip(1)) by {
                        assert(strs_views(parts@).len() == sp.len());
                        assert(forall|i: int|
                            0 <= i < sp.len() ==> #[trigger] strs_views(parts@)[i] == sp[i]);
                    }
                }
                Ok(AccountArgs { amount: Some(am), name })
            },
            Err(_) => Ok(AccountArgs { amount: None, name: s }),
        }
    }
}

/// The parsed options of one command invocation.
#[derive(Debug)]
pub struct Args {
    pub cmd: String,
    pub account: Option<String>,
    pub amount: Option<Amount>,
    pub description: String,
    pub can_overdraw: bool,
}

}
