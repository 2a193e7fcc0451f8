//! Rows of the `user` table.
use vstd::prelude::*;

verus! {

/// A row of the `user` table.
pub struct UserTable {
    pub id: u32,
    pub name: String,
    pub username: String,
}

} // verus!
