//! A small password-manager core: an immutable, lexicographically ordered
//! store of named credential entries, with a canonical JSON encoding and a
//! name-or-index resolution scheme for the command line.

pub mod codec;
pub mod flows;
pub mod order;
pub mod resolve;
pub mod store;

pub use codec::EntriesStuff;
pub use codec::ParseError;
pub use flows::AddError;
pub use flows::DeleteOutcome;
pub use flows::EditError;
pub use flows::OpenError;
pub use flows::add;
pub use flows::delete;
pub use flows::edit;
pub use flows::list;
pub use flows::open;
pub use flows::readline;
pub use flows::show;
pub use resolve::ResolutionError;
pub use resolve::resolve;
pub use store::EntryStore;

use vstd::prelude::*;

verus! {

/// The store of entries, under the name the command-line layer uses.
pub type Entries = EntryStore;

/// An immutable credential record: four plain text fields.
#[derive(Debug)]
pub struct Entry {
    pub name: String,
    pub username: String,
    pub password: String,
    pub notes: String,
}

/// The mathematical value of an [`Entry`]: its four fields as
/// character sequences.
#[verifier::ext_equal]
pub struct EntryModel {
    pub name: Seq<char>,
    pub username: Seq<char>,
    pub password: Seq<char>,
    pub notes: Seq<char>,
}

impl View for Entry {
    type V = EntryModel;

    open spec fn view(&self) -> EntryModel {
        EntryModel {
            name: self.name@,
            username: self.username@,
            password: self.password@,
            notes: self.notes@,
        }
    }
}

impl Clone for Entry {
    /// Cloning copies all four fields.
    fn clone(&self) -> (r: Self)
        ensures
            r@ == self@,
    {
        Entry {
            name: self.name.clone(),
            username: self.username.clone(),
            password: self.password.clone(),
            notes: self.notes.clone(),
        }
    }
}

impl PartialEq for Entry {
    fn eq(&self, other: &Self) -> (r: bool) {
        self.name == other.name && self.username == other.username
            && self.password == other.password && self.notes == other.notes
    }
}

impl vstd::std_specs::cmp::PartialEqSpecImpl for Entry {
    open spec fn obeys_eq_spec() -> bool {
        true
    }

    open spec fn eq_spec(&self, other: &Self) -> bool {
        self@ == other@
    }
}

} // verus!
