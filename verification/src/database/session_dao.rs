//! Rows of the `session` table.
use vstd::prelude::*;

verus! {

/// A row of the `session` table: the token a user authenticates with.
pub struct SessionTable {
    pub id: u32,
    pub user_id: u32,
    pub token: String,
}

} // verus!
