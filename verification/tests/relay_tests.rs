use vapix_relay::error::{AppError, Severity};
use vapix_relay::relay::{relay_outcome, UpstreamOutcome};

#[test]
fn received_response_is_mirrored() {
    let out = relay_outcome(UpstreamOutcome::Response {
        status: 201,
        content_type: Some("application/json".to_string()),
        body: b"{\"ok\":true}".to_vec(),
    })
    .unwrap();
    assert_eq!(out.status, 201);
    assert_eq!(out.content_type.as_deref(), Some("application/json"));
    assert_eq!(out.body, b"{\"ok\":true}".to_vec());
}

#[test]
fn upstream_error_status_is_not_reclassified() {
    let out = relay_outcome(UpstreamOutcome::Response {
        status: 404,
        content_type: None,
        body: Vec::new(),
    })
    .unwrap();
    assert_eq!(out.status, 404);
    assert_eq!(out.content_type, None);
    assert!(out.body.is_empty());
}

#[test]
fn generic_failure_is_a_client_error() {
    let err = relay_outcome(UpstreamOutcome::GenericFailure {
        message: "upstream declined".to_string(),
    })
    .unwrap_err();
    assert!(matches!(err, AppError::Other(_)));
    assert_eq!(err.status_code(), 400);
    assert!(matches!(err.severity(), Severity::Warning));
}

#[test]
fn other_transport_failure_is_a_server_error() {
    let err = relay_outcome(UpstreamOutcome::TransportFailure {
        message: "Could not send request".to_string(),
    })
    .unwrap_err();
    assert!(matches!(err, AppError::Internal(_)));
    assert_eq!(err.status_code(), 500);
    assert!(matches!(err.severity(), Severity::Error));
}

#[test]
fn read_failure_is_a_server_error() {
    let err = relay_outcome(UpstreamOutcome::ReadFailure {
        message: "Could not read response body".to_string(),
    })
    .unwrap_err();
    assert!(matches!(err, AppError::Internal(_)));
    assert_eq!(err.status_code(), 500);
}

#[test]
fn rejected_target_is_a_client_error() {
    let err = relay_outcome(UpstreamOutcome::TargetRejected {
        message: "Could not create request builder".to_string(),
    })
    .unwrap_err();
    assert!(matches!(err, AppError::InvalidPath(_)));
    assert_eq!(err.status_code(), 400);
}

#[test]
fn error_messages_carry_the_cause() {
    assert_eq!(
        AppError::InvalidPath("bad target".to_string()).message(),
        "Invalid path: bad target"
    );
    assert_eq!(
        AppError::InvalidQuery("bad query".to_string()).message(),
        "Invalid query: bad query"
    );
    assert_eq!(AppError::Internal("boom".to_string()).message(), "Internal error: boom");
    assert_eq!(AppError::Other("declined".to_string()).message(), "Other error: declined");
}
