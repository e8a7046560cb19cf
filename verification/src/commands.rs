//! The ledger's commands as a closed set of types, each with a single
//! entry point that validates its options and acts on an account in
//! memory. Dispatching on the command word, and saving afterwards, is
//! the surrounding layer's work.

use vstd::prelude::*;
use crate::account::{
    account_wf, got_post, set_post, spent_post, Account, AccountError,
};
use crate::arguments::Args;

verus! {

/// Creates an account.
pub struct New {}

/// Records an expense on an account.
pub struct Spent {}

/// Records income on an account.
pub struct Got {}

/// Sets an account's balance to an absolute target.
pub struct SetBalance {}

impl New {
    /// Builds the fresh account the options name; the caller registers
    /// its backing file and saves it. Fails with `MissingOptions`
    /// exactly when no account name was given.
    pub fn execute(&self, args: &Args) -> (r: Result<Account, AccountError>)
        ensures
            r is Ok <==> args.account is Some,
            r matches Ok(a) ==> a@.name == args.account.unwrap()@ && a@.description
                == args.description@ && a@.can_overdraw == args.can_overdraw && a@.balance == 0
                && a@.transactions.len() == 0 && account_wf(a@),
            r matches Err(e) ==> e matches AccountError::MissingOptions(_),
    {
        match &args.account {
            Some(name) => Ok(
                Account::create(name.clone(), args.description.clone(), args.can_overdraw),
            ),
            None => Err(
                AccountError::MissingOptions(
                    String::from_str("You need to specify an account name"),
                ),
            ),
        }
    }
}

impl Spent {
    /// Records the expense the options carry. Fails with
    /// `MissingOptions` when no amount was given, leaving the account
    /// untouched; otherwise behaves as the account's `spent`.
    pub fn execute(&self, account: &mut Account, args: &Args) -> (r: Result<(), AccountError>)
        requires
            account_wf(old(account)@),
        ensures
            account_wf(final(account)@),
            args.amount is None ==> final(account)@ == old(account)@ && (r matches Err(e)
                && e matches AccountError::MissingOptions(_)),
            args.amount matches Some(am) ==> spent_post(
                old(account)@,
                final(account)@,
                am.nanos as int,
                args.description@,
                r,
            ),
    {
        match args.amount {
            Some(am) => account.spent(am, args.description.clone()),
            None => Err(
                AccountError::MissingOptions(String::from_str("You need to specify an amount")),
            ),
        }
    }
}

impl Got {
    /// Records the income the options carry. Fails with
    /// `MissingOptions` when no amount was given, leaving the account
    /// untouched; otherwise behaves as the account's `got` and always
    /// succeeds.
    pub fn execute(&self, account: &mut Account, args: &Args) -> (r: Result<(), AccountError>)
        requires
            account_wf(old(account)@),
        ensures
            account_wf(final(account)@),
            args.amount is None ==> final(account)@ == old(account)@ && (r matches Err(e)
                && e matches AccountError::MissingOptions(_)),
            args.amount matches Some(am) ==> r is Ok && got_post(
                old(account)@,
                final(account)@,
                am.nanos as int,
                args.description@,
            ),
    {
        match args.amount {
            Some(am) => {
                account.got(am, args.description.clone());
                Ok(())
            },
            None => Err(
                AccountError::MissingOptions(String::from_str("You need to specify an amount")),
            ),
        }
    }
}

impl SetBalance {
    /// Sets the balance to the target the options carry. Fails with
    /// `MissingOptions` when no amount was given, leaving the account
    /// untouched; otherwise behaves as the account's `set`.
    pub fn execute(&self, account: &mut Account, args: &Args) -> (r: Result<(), AccountError>)
        requires
            account_wf(old(account)@),
        ensures
            account_wf(final(account)@),
            args.amount is None ==> final(account)@ == old(account)@ && (r matches Err(e)
                && e matches AccountError::MissingOptions(_)),
            args.amount matches Some(am) ==> set_post(
                old(account)@,
                final(account)@,
                am.nanos as int,
                args.description@,
                r,
            ),
    {
        match args.amount {
            Some(am) => account.set(am, args.description.clone()),
            None => Err(
                AccountError::MissingOptions(String::from_str("You need to specify an amount")),
            ),
        }
    }
}

}
