//! Errors of the database layer.
use vstd::prelude::*;

use crate::util::concat;

verus! {

/// What a query can fail with: no row where one was required, or another
/// failure of the database, with its message.
#[derive(Debug)]
pub enum DatabaseError {
    NotFound,
    DatabaseError(String),
    InternalServerError(String),
}

impl DatabaseError {
    /// The error for a failed query: a query that found no row where one was
    /// required is `NotFound`; any other failure keeps its message.
    pub fn from_query_failure(row_not_found: bool, message: String) -> (e: DatabaseError)
        ensures
            row_not_found ==> e == DatabaseError::NotFound,
            !row_not_found ==> e == DatabaseError::DatabaseError(message),
    {
        if row_not_found {
            DatabaseError::NotFound
        } else {
            DatabaseError::DatabaseError(message)
        }
    }

    /// The text of the error.
    pub fn message(&self) -> (text: String)
        ensures
            text@ == (match self {
                DatabaseError::NotFound => "Not found"@,
                DatabaseError::DatabaseError(m) => "Bad request: "@ + m@,
                DatabaseError::InternalServerError(m) => "Internal server error: "@ + m@,
            }),
    {
        match self {
            DatabaseError::NotFound => "Not found".to_owned(),
            DatabaseError::DatabaseError(m) => concat("Bad request: ", m.as_str()),
            DatabaseError::InternalServerError(m) => concat("Internal server error: ", m.as_str()),
        }
    }
}

/// The outcome of a write that must touch exactly one row: success when one
/// row was changed, `NotFound` otherwise (no row matched, or more than one).
pub fn one_row_affected(rows_affected: u64) -> (r: Result<(), DatabaseError>)
    ensures
        rows_affected == 1 ==> r == Ok::<(), DatabaseError>(()),
        rows_affected != 1 ==> r == Err::<(), DatabaseError>(DatabaseError::NotFound),
{
    if rows_affected != 1 {
        return Err(DatabaseError::NotFound);
    }
    Ok(())
}

} // verus!
