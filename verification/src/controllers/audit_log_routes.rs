//! The history of owner changes as the HTTP API shows it.
use vstd::prelude::*;

use crate::database::dao::audit_log_dao::ParentHistoryTable;

verus! {

/// A change of owner as the API shows it.
pub struct ParentHistoryEntry {
    pub entity_name: String,
    pub old_parent_name: Option<String>,
    pub new_parent_name: Option<String>,
    pub created_at: chrono::NaiveDateTime,
}

impl ParentHistoryEntry {
    /// The API form of a recorded change of owner.
    pub fn from_history(entry: ParentHistoryTable) -> (h: Self)
        ensures
            h.entity_name == entry.entity_name,
            h.old_parent_name == entry.old_parent_name,
            h.new_parent_name == entry.new_parent_name,
            h.created_at == entry.created_at,
    {
        Self {
            entity_name: entry.entity_name,
            old_parent_name: entry.old_parent_name,
            new_parent_name: entry.new_parent_name,
            created_at: entry.created_at,
        }
    }
}

} // verus!
