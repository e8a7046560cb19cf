//! Categories for classifying transactions. Identifiers come from an
//! explicitly owned sequence the caller passes where needed, in place
//! of process-wide mutable state.

use vstd::prelude::*;

verus! {

#[allow(non_snake_case)]
#[derive(Debug)]
pub struct Category {
    pub ID: i64,
    pub name: String,
    pub description: String,
}

impl Category {
    /// A category under an identifier the caller's sequence handed out.
    pub fn new(id: i64, name: String, description: String) -> (r: Category)
        ensures
            r.ID == id,
            r.name@ == name@,
            r.description@ == description@,
    {
        Category { ID: id, name, description }
    }

    /// Display text of the category.
    pub fn display_string(&self) -> (r: String)
        ensures
            r@ == self.name@ + ": "@ + self.description@,
    {
        let mut s = self.name.clone();
        s.append(": ");
        s.append(self.description.as_str());
        proof {
            assert(s@ =~= self.name@ + ": "@ + self.description@);
        }
        s
    }
}

/// Hands out consecutive category identifiers; owned by its holder and
/// passed along, never global.
#[derive(Debug)]
pub struct CategorySequence {
    pub next_id: i64,
}

impl CategorySequence {
    /// A fresh sequence; identifiers start at one.
    pub fn new() -> (r: CategorySequence)
        ensures
            r.next_id == 1,
    {
        CategorySequence { next_id: 1 }
    }

    /// The next identifier; each call returns one higher than the last.
    pub fn fresh(&mut self) -> (id: i64)
        requires
            old(self).next_id < i64::MAX,
        ensures
            id == old(self).next_id,
            final(self).next_id == id + 1,
    {
        let id = self.next_id;
        self.next_id = self.next_id + 1;
        id
    }
}

}
