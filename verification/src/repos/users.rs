//! User rows: the account that owns stack items and groups.
use vstd::prelude::*;

use crate::ids::Id;

verus! {

/// A user to be inserted: the storage layer assigns the row its id.
#[derive(Debug, Clone, PartialEq, Eq)]
pub struct NewUser {
    pub username: String,
    pub password: String,
}

/// A stored user row.
#[derive(Debug, Clone, PartialEq, Eq)]
pub struct User {
    pub id: Id,
    pub username: String,
    pub password: String,
}

/// The mathematical content of a [`User`].
pub ghost struct UserView {
    pub id: Seq<char>,
    pub username: Seq<char>,
    pub password: Seq<char>,
}

impl View for User {
    type V = UserView;

    open spec fn view(&self) -> UserView {
        UserView { id: self.id@, username: self.username@, password: self.password@ }
    }
}

} // verus!
