//! Participant identity: an immutable value identified by its non-empty
//! display name. Equality of participants is equality of names.

use vstd::prelude::*;

verus! {

/// Rejected construction of a participant: the name was empty.
#[derive(Debug, PartialEq)]
pub struct UserError;

/// A participant. Identity is the name; two users with the same name are
/// the same participant.
#[derive(Debug, PartialEq, Eq, Hash)]
pub struct User {
    name: String,
}

impl View for User {
    type V = Seq<char>;

    closed spec fn view(&self) -> Seq<char> {
        self.name@
    }
}

impl User {
    /// Builds a participant; rejects an empty name.
    pub fn new(name: &str) -> (r: Result<User, UserError>)
        ensures
            match r {
                Ok(u) => name@.len() > 0 && u@ == name@,
                Err(_) => name@.len() == 0,
            },
    {
        if name.is_empty() {
            Err(UserError)
        } else {
            Ok(User { name: name.to_owned() })
        }
    }

    /// The display name.
    pub fn get_name(&self) -> (r: &String)
        ensures
            r@ == self@,
    {
        &self.name
    }

    /// Whether two participants are the same identity.
    pub fn same_as(&self, other: &User) -> (r: bool)
        ensures
            r == (self@ == other@),
    {
        self.name == other.name
    }
}

impl Clone for User {
    /// The copy carries the same identity.
    fn clone(&self) -> (r: Self)
        ensures
            r@ == self@,
    {
        User { name: self.name.clone() }
    }
}

} // verus!
