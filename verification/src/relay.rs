use vstd::prelude::*;

use crate::error::AppError;

verus! {

/// What the upstream call produced, as the boundary layer reports it: a
/// received response of any status, or one of the failures the transport can
/// raise.
#[derive(Debug)]
pub enum UpstreamOutcome {
    /// The upstream answered; its status code is carried whatever it is.
    Response { status: u16, content_type: Option<String>, body: Vec<u8> },
    /// The request target could not be turned into an upstream request.
    TargetRejected { message: String },
    /// A failure the transport reports under its generic, unclassified kind.
    GenericFailure { message: String },
    /// Any other transport failure.
    TransportFailure { message: String },
    /// The upstream answered but its headers or body could not be read.
    ReadFailure { message: String },
}

/// The response the relay sends back to its own caller.
#[derive(Debug)]
pub struct OutgoingResponse {
    pub status: u16,
    pub content_type: Option<String>,
    pub body: Vec<u8>,
}

/// What `relay_outcome` returns for each outcome.
pub open spec fn spec_relay_outcome(outcome: UpstreamOutcome) -> Result<
    OutgoingResponse,
    AppError,
> {
    match outcome {
        UpstreamOutcome::Response { status, content_type, body } => Ok(
            OutgoingResponse { status, content_type, body },
        ),
        UpstreamOutcome::TargetRejected { message } => Err(AppError::InvalidPath(message)),
        UpstreamOutcome::GenericFailure { message } => Err(AppError::Other(message)),
        UpstreamOutcome::TransportFailure { message } => Err(AppError::Internal(message)),
        UpstreamOutcome::ReadFailure { message } => Err(AppError::Internal(message)),
    }
}

/// Classifies one upstream outcome. A received response is a success whatever
/// its status code: status, content type and body are carried through
/// unchanged. A malformed target and a generic upstream failure are the
/// caller's mistake; every other failure is the relay's own.
pub fn relay_outcome(outcome: UpstreamOutcome) -> (r: Result<OutgoingResponse, AppError>)
    ensures
        r == spec_relay_outcome(outcome),
        outcome matches UpstreamOutcome::Response { status, content_type, body } ==> r is Ok
            && r->Ok_0.status == status && r->Ok_0.content_type == content_type
            && r->Ok_0.body == body,
        outcome matches UpstreamOutcome::TargetRejected { message } ==> r
            matches Err(AppError::InvalidPath(m)) && m == message,
        outcome matches UpstreamOutcome::GenericFailure { message } ==> r
            matches Err(AppError::Other(m)) && m == message,
        outcome matches UpstreamOutcome::TransportFailure { message } ==> r
            matches Err(AppError::Internal(m)) && m == message,
        outcome matches UpstreamOutcome::ReadFailure { message } ==> r
            matches Err(AppError::Internal(m)) && m == message,
{
    match outcome {
        UpstreamOutcome::Response { status, content_type, body } => Ok(
            OutgoingResponse { status, content_type, body },
        ),
        UpstreamOutcome::TargetRejected { message } => Err(AppError::InvalidPath(message)),
        UpstreamOutcome::GenericFailure { message } => Err(AppError::Other(message)),
        UpstreamOutcome::TransportFailure { message } => Err(AppError::Internal(message)),
        UpstreamOutcome::ReadFailure { message } => Err(AppError::Internal(message)),
    }
}

} // verus!
