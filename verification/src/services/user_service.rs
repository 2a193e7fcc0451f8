//! Users as the service layer hands them out.
use vstd::prelude::*;

use crate::database::user_dao::UserTable;

verus! {

/// A user of the service.
pub struct User {
    pub id: u32,
    pub name: String,
    pub username: String,
}

impl User {
    /// The user of a row of the `user` table.
    pub fn from_user_table(user_table: UserTable) -> (u: Self)
        ensures
            u.id == user_table.id,
            u.name == user_table.name,
            u.username == user_table.username,
    {
        User { id: user_table.id, name: user_table.name, username: user_table.username }
    }
}

} // verus!
