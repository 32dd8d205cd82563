use vstd::prelude::*;

verus! {

/// Error taxonomy shared by the materializer and the relay: client-input
/// errors, internal failures, and upstream-reported failures. Each variant
/// carries a human-readable cause.
#[derive(Debug)]
pub enum AppError {
    InvalidPath(String),
    InvalidQuery(String),
    Internal(String),
    Other(String),
}

/// How the boundary layer logs an error.
#[derive(Debug)]
pub enum Severity {
    Warning,
    Error,
}

impl AppError {
    /// Internal failures are server errors; every other variant reports a
    /// client mistake.
    pub open spec fn spec_status_code(&self) -> u16 {
        match self {
            AppError::Internal(_) => 500u16,
            _ => 400u16,
        }
    }

    /// HTTP status code that the boundary layer sends for this error.
    pub fn status_code(&self) -> (code: u16)
        ensures
            code == self.spec_status_code(),
    {
        match self {
            AppError::InvalidPath(_) => 400,
            AppError::InvalidQuery(_) => 400,
            AppError::Internal(_) => 500,
            AppError::Other(_) => 400,
        }
    }

    /// Server errors are logged at error severity, client errors at warning
    /// severity.
    pub fn severity(&self) -> (s: Severity)
        ensures
            self.spec_status_code() == 500 ==> s is Error,
            self.spec_status_code() == 400 ==> s is Warning,
    {
        match self {
            AppError::Internal(_) => Severity::Error,
            _ => Severity::Warning,
        }
    }

    /// The cause the variant wraps.
    pub open spec fn spec_cause(&self) -> Seq<char> {
        match self {
            AppError::InvalidPath(m) => m@,
            AppError::InvalidQuery(m) => m@,
            AppError::Internal(m) => m@,
            AppError::Other(m) => m@,
        }
    }

    /// The top-level message sent in an error response's body.
    pub fn message(&self) -> (m: String)
        ensures
            self matches AppError::InvalidPath(c) ==> m@ == "Invalid path: "@ + c@,
            self matches AppError::InvalidQuery(c) ==> m@ == "Invalid query: "@ + c@,
            self matches AppError::Internal(c) ==> m@ == "Internal error: "@ + c@,
            self matches AppError::Other(c) ==> m@ == "Other error: "@ + c@,
    {
        match self {
            AppError::InvalidPath(c) => String::from_str("Invalid path: ").concat(c.as_str()),
            AppError::InvalidQuery(c) => String::from_str("Invalid query: ").concat(c.as_str()),
            AppError::Internal(c) => String::from_str("Internal error: ").concat(c.as_str()),
            AppError::Other(c) => String::from_str("Other error: ").concat(c.as_str()),
        }
    }
}

} // verus!
