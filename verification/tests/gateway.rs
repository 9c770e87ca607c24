//! Behavioural tests for the gateway's outcome-to-reply mapping, run against
//! the real serde_json parser.

use chat_gateway::gateway::{
    build_inference_request, handle_backend_outcome, BackendOutcome,
};

#[test]
fn success_body_is_parsed_and_formatted() {
    let outcome = BackendOutcome::Success {
        body: String::from("{\"response\": \"Buy milk. Buy eggs. Call Bob\"}"),
    };
    let reply = handle_backend_outcome(outcome, true);
    assert_eq!(reply.status, 200);
    assert_eq!(reply.response.message, "1. Buy eggs\n2. Buy milk\n3. Call Bob");
    assert!(reply.response.error.is_none());
}

#[test]
fn success_body_is_returned_raw_without_formatting() {
    let outcome = BackendOutcome::Success {
        body: String::from("{\"response\": \"Buy milk. Buy eggs. Call Bob\"}"),
    };
    let reply = handle_backend_outcome(outcome, false);
    assert_eq!(reply.status, 200);
    assert_eq!(reply.response.message, "Buy milk. Buy eggs. Call Bob");
    assert!(reply.response.error.is_none());
}

#[test]
fn invalid_json_maps_to_500_with_parse_error() {
    let outcome = BackendOutcome::Success {
        body: String::from("definitely not json"),
    };
    let reply = handle_backend_outcome(outcome, true);
    assert_eq!(reply.status, 500);
    assert_eq!(reply.response.message, "");
    let error = reply.response.error.expect("parse failure must be reported");
    assert!(error.starts_with("Failed to parse AI response: "));
    assert!(error.len() > "Failed to parse AI response: ".len());
}

#[test]
fn missing_response_field_falls_back() {
    let outcome = BackendOutcome::Success {
        body: String::from("{\"other\": 1}"),
    };
    let reply = handle_backend_outcome(outcome, true);
    assert_eq!(reply.status, 200);
    assert_eq!(reply.response.message, "No valid response from AI.");
    assert!(reply.response.error.is_none());
}

#[test]
fn non_string_response_field_falls_back() {
    let outcome = BackendOutcome::Success {
        body: String::from("{\"response\": 5}"),
    };
    let reply = handle_backend_outcome(outcome, true);
    assert_eq!(reply.status, 200);
    assert_eq!(reply.response.message, "No valid response from AI.");
}

#[test]
fn http_failure_maps_to_502_with_status_code() {
    let outcome = BackendOutcome::HttpFailure { status: 500 };
    let reply = handle_backend_outcome(outcome, true);
    assert_eq!(reply.status, 502);
    assert_eq!(reply.response.message, "");
    let error = reply.response.error.expect("backend failure must be reported");
    assert_eq!(error, "Ollama API error: Status 500");
    assert!(error.contains("500"));
}

#[test]
fn timeout_maps_to_504() {
    let reply = handle_backend_outcome(BackendOutcome::TimedOut, true);
    assert_eq!(reply.status, 504);
    assert_eq!(reply.response.message, "");
    let error = reply.response.error.expect("timeout must be reported");
    assert!(!error.is_empty());
}

#[test]
fn connect_failure_maps_to_503() {
    let reply = handle_backend_outcome(BackendOutcome::ConnectFailed, true);
    assert_eq!(reply.status, 503);
    assert_eq!(reply.response.message, "");
    assert!(!reply.response.error.expect("unreachable backend must be reported").is_empty());
}

#[test]
fn other_transport_failure_maps_to_500() {
    let outcome = BackendOutcome::Transport {
        detail: String::from("connection reset by peer"),
    };
    let reply = handle_backend_outcome(outcome, true);
    assert_eq!(reply.status, 500);
    assert_eq!(reply.response.message, "");
    assert_eq!(
        reply.response.error.expect("transport failure must be reported"),
        "Error communicating with AI model: connection reset by peer"
    );
}

#[test]
fn inference_request_copies_model_and_prompt() {
    let req = build_inference_request("llama3", "What is up?");
    assert_eq!(req.model, "llama3");
    assert_eq!(req.prompt, "What is up?");
    assert!(!req.stream);
}
