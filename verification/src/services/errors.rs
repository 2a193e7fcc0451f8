//! Errors of the service layer.
use vstd::prelude::*;

use crate::database::errors::DatabaseError;

verus! {

/// What a service operation can fail with.
#[derive(Debug)]
pub enum ServiceError {
    /// The entity (or other record) asked for does not exist.
    NotFound,
    /// Any other failure, with its message.
    InternalServerError(String),
    /// Making the requested entity the owner would put an entity below itself.
    CircularReference,
}

/// The service error that a database error becomes: `NotFound` stays
/// `NotFound`, every other failure becomes an internal error with its message.
pub open spec fn service_error_of(error: DatabaseError) -> ServiceError {
    match error {
        DatabaseError::NotFound => ServiceError::NotFound,
        DatabaseError::DatabaseError(m) => ServiceError::InternalServerError(m),
        DatabaseError::InternalServerError(m) => ServiceError::InternalServerError(m),
    }
}

impl From<DatabaseError> for ServiceError {
    fn from(error: DatabaseError) -> (r: Self) {
        match error {
            DatabaseError::NotFound => ServiceError::NotFound,
            DatabaseError::DatabaseError(m) => ServiceError::InternalServerError(m),
            DatabaseError::InternalServerError(m) => ServiceError::InternalServerError(m),
        }
    }
}

impl vstd::std_specs::convert::FromSpecImpl<DatabaseError> for ServiceError {
    open spec fn obeys_from_spec() -> bool {
        true
    }

    open spec fn from_spec(error: DatabaseError) -> ServiceError {
        service_error_of(error)
    }
}

} // verus!
