//! Errors as the HTTP API reports them.
use vstd::prelude::*;

use crate::services::errors::ServiceError;
use crate::util::concat;

verus! {

/// An error of the HTTP API.
#[derive(Debug)]
pub enum AppError {
    NotFound,
    BadRequest(String),
    InternalServerError(String),
}

impl AppError {
    /// The API error that a service error becomes: a missing record is
    /// `NotFound`, an internal failure keeps its message, and a circular
    /// reference is a bad request.
    pub fn from(error: ServiceError) -> (r: Self)
        ensures
            error is NotFound ==> r is NotFound,
            error matches ServiceError::InternalServerError(m) ==> r
                == AppError::InternalServerError(m),
            error is CircularReference ==> (r matches AppError::BadRequest(m) && m@
                == "Circular reference"@),
    {
        match error {
            ServiceError::NotFound => AppError::NotFound,
            ServiceError::InternalServerError(m) => AppError::InternalServerError(m),
            ServiceError::CircularReference => AppError::BadRequest("Circular reference".to_owned()),
        }
    }

    /// The HTTP status code the error is answered with.
    pub fn status_code(&self) -> (code: u16)
        ensures
            code == (match self {
                AppError::NotFound => 404u16,
                AppError::BadRequest(_) => 400u16,
                AppError::InternalServerError(_) => 500u16,
            }),
    {
        match self {
            AppError::NotFound => 404,
            AppError::BadRequest(_) => 400,
            AppError::InternalServerError(_) => 500,
        }
    }

    /// The text of the error, which is also the body of the response.
    pub fn message(&self) -> (text: String)
        ensures
            text@ == (match self {
                AppError::NotFound => "Not found"@,
                AppError::BadRequest(m) => "Bad request: "@ + m@,
                AppError::InternalServerError(m) => "Internal server error: "@ + m@,
            }),
    {
        match self {
            AppError::NotFound => "Not found".to_owned(),
            AppError::BadRequest(m) => concat("Bad request: ", m.as_str()),
            AppError::InternalServerError(m) => concat("Internal server error: ", m.as_str()),
        }
    }
}

} // verus!
