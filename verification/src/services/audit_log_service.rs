//! The audit log of the service.
use vstd::prelude::*;

use crate::services::errors::ServiceError;

verus! {

/// An entry of the audit log.
pub struct AuditLogEntry {
    pub action: String,
}

/// The audit log of a user: for now the same two entries for every user,
/// the actions `Server1` and `Server2`.
pub fn get_logs(user_id: u32) -> (r: Result<Vec<AuditLogEntry>, ServiceError>)
    ensures
        r matches Ok(logs) && logs@.len() == 2 && logs@[0].action@ == "Server1"@
            && logs@[1].action@ == "Server2"@,
{
    let mut logs: Vec<AuditLogEntry> = Vec::new();
    logs.push(AuditLogEntry { action: "Server1".to_owned() });
    logs.push(AuditLogEntry { action: "Server2".to_owned() });
    Ok(logs)
}

} // verus!
