//! The error taxonomy of the library; the transport layer maps each kind to
//! its closest status code.
use vstd::prelude::*;

verus! {

#[derive(Clone, Debug)]
pub enum AppError {
    /// Invariant violations that should be impossible.
    Internal(String),
    /// An identifier did not resolve.
    NotFound(u128),
    /// The state does not permit the operation.
    PreconditionFailed(String),
    /// The caller lacks the role for the operation.
    Unauthorized(String),
    /// Malformed arguments.
    InvalidRequest(String),
}

impl AppError {
    pub fn internal(info: &str) -> (e: AppError)
        ensures
            e matches AppError::Internal(s) && s@ == info@,
    {
        AppError::Internal(String::from_str(info))
    }

    pub fn not_found(id: u128) -> (e: AppError)
        ensures
            e == AppError::NotFound(id),
    {
        AppError::NotFound(id)
    }

    pub fn precondition_failed(info: &str) -> (e: AppError)
        ensures
            e matches AppError::PreconditionFailed(s) && s@ == info@,
    {
        AppError::PreconditionFailed(String::from_str(info))
    }

    pub fn unauthorized(info: &str) -> (e: AppError)
        ensures
            e matches AppError::Unauthorized(s) && s@ == info@,
    {
        AppError::Unauthorized(String::from_str(info))
    }

    pub fn invalid_request(info: &str) -> (e: AppError)
        ensures
            e matches AppError::InvalidRequest(s) && s@ == info@,
    {
        AppError::InvalidRequest(String::from_str(info))
    }

    /// The message carried, or a fixed text for kinds without one.
    pub fn message(&self) -> (s: String)
        ensures
            match *self {
                AppError::Internal(m) => s@ == m@,
                AppError::PreconditionFailed(m) => s@ == m@,
                AppError::Unauthorized(m) => s@ == m@,
                AppError::InvalidRequest(m) => s@ == m@,
                AppError::NotFound(_) => s@ == "not found"@,
            },
    {
        match self {
            AppError::Internal(m) => m.clone(),
            AppError::PreconditionFailed(m) => m.clone(),
            AppError::Unauthorized(m) => m.clone(),
            AppError::InvalidRequest(m) => m.clone(),
            AppError::NotFound(_) => String::from_str("not found"),
        }
    }
}

} // verus!
