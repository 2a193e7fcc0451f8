//! Rows of the `parent_history` table, which records changes of owner.
use vstd::prelude::*;

verus! {

/// A date and time without a time zone, as the database stores it.
#[verifier::external_type_specification]
#[verifier::external_body]
pub struct ExNaiveDateTime(chrono::NaiveDateTime);

/// A row of the `parent_history` table: an entity changed from one owner to
/// another at the given time.
#[derive(Debug)]
pub struct ParentHistoryTable {
    pub parent_history_id: u32,
    pub entity_name: String,
    pub old_parent_name: Option<String>,
    pub new_parent_name: Option<String>,
    pub created_at: chrono::NaiveDateTime,
}

} // verus!
