//! The gateway's decision logic: what reply each backend call outcome owes
//! the client. The transport itself (HTTP client, server, timeout) lives
//! outside the library and hands in a [`BackendOutcome`].

use vstd::prelude::*;
use crate::backend_json::{json_string_field, extract_string_field, json_error_text};
use crate::formatter::{format_spec, format_ai_response};
use crate::numbers::{dec_digits, render_dec};

verus! {

/// A chat request as the client sends it: the user's prompt text, taken
/// as-is — empty messages included.
pub struct ChatRequest {
    pub message: String,
}

/// The JSON envelope returned to the chat client: on success `message`
/// holds the (possibly reformatted) model output and `error` is absent; on
/// failure `message` is empty and `error` describes what went wrong.
pub struct ChatResponse {
    pub message: String,
    pub error: Option<String>,
}

/// An HTTP reply: a status code and the response envelope.
pub struct GatewayReply {
    pub status: u16,
    pub response: ChatResponse,
}

/// The request sent to the inference backend: a model identifier, the
/// user's message as prompt, and non-streaming mode.
pub struct InferenceRequest {
    pub model: String,
    pub prompt: String,
    pub stream: bool,
}

/// How one call to the inference backend ended, as the transport reports
/// it, in this precedence: a success status, a non-success status, a missed
/// deadline, a failed connection, anything else.
pub enum BackendOutcome {
    /// The backend answered with a success status; `body` is the response
    /// text, not yet parsed.
    Success { body: String },
    /// The backend answered with a non-success status.
    HttpFailure { status: u16 },
    /// The call exceeded its deadline.
    TimedOut,
    /// No connection to the backend could be established.
    ConnectFailed,
    /// Any other transport failure, described by `detail`.
    Transport { detail: String },
}

pub fn build_inference_request(model: &str, message: &str) -> (r: InferenceRequest)
    ensures
        r.model@ == model@,
        r.prompt@ == message@,
        r.stream == false,
{
    InferenceRequest {
        model: String::from_str(model),
        prompt: String::from_str(message),
        stream: false,
    }
}

/// An empty message beside an error that opens with `prefix`.
pub open spec fn error_reply_with_prefix(resp: ChatResponse, prefix: Seq<char>) -> bool {
    &&& resp.message@.len() == 0
    &&& resp.error matches Some(e) && e@.len() >= prefix.len() && e@.subrange(
        0,
        prefix.len() as int,
    ) == prefix
}

/// The reply owed for each backend outcome. On a success body the
/// `response` field decides: a parse failure is a 500 with a parse error, a
/// missing field falls back to a fixed notice, and a present field is
/// returned (formatted when asked for) with status 200. The other outcomes
/// map to 502, 504, 503 and 500 with their fixed error texts.
pub open spec fn reply_spec(
    outcome: BackendOutcome,
    apply_formatting: bool,
    r: GatewayReply,
) -> bool {
    match outcome {
        BackendOutcome::Success { body } => match json_string_field(body@, "response"@) {
            Option::None => {
                &&& r.status == 500
                &&& error_reply_with_prefix(r.response, "Failed to parse AI response: "@)
            },
            Option::Some(field) => {
                let raw = if field is Some {
                    field->0
                } else {
                    "No valid response from AI."@
                };
                &&& r.status == 200
                &&& r.response.error is None
                &&& r.response.message@ == if apply_formatting {
                    format_spec(raw)
                } else {
                    raw
                }
            },
        },
        BackendOutcome::HttpFailure { status } => {
            &&& r.status == 502
            &&& r.response.message@.len() == 0
            &&& r.response.error matches Some(e) && e@ == "Ollama API error: Status "@
                + dec_digits(status as nat)
        },
        BackendOutcome::TimedOut => {
            &&& r.status == 504
            &&& r.response.message@.len() == 0
            &&& r.response.error matches Some(e) && e@
                == "Request to AI model timed out. Please try again."@
        },
        BackendOutcome::ConnectFailed => {
            &&& r.status == 503
            &&& r.response.message@.len() == 0
            &&& r.response.error matches Some(e) && e@
                == "Failed to connect to AI model. Is Ollama running?"@
        },
        BackendOutcome::Transport { detail } => {
            &&& r.status == 500
            &&& r.response.message@.len() == 0
            &&& r.response.error matches Some(e) && e@ == "Error communicating with AI model: "@
                + detail@
        },
    }
}

/// Maps a backend outcome to the HTTP reply, verified against
/// [`reply_spec`]; with `apply_formatting` the model text goes through
/// [`format_ai_response`] first.
pub fn handle_backend_outcome(outcome: BackendOutcome, apply_formatting: bool) -> (r: GatewayReply)
    ensures
        reply_spec(outcome, apply_formatting, r),
{
    match outcome {
        BackendOutcome::Success { body } => match extract_string_field(body.as_str(), "response") {
            Err(e) => {
                let text = json_error_text(&e);
                let msg = String::from_str("Failed to parse AI response: ").concat(text.as_str());
                proof {
                    let p = "Failed to parse AI response: "@;
                    assert((p + text@).subrange(0, p.len() as int) =~= p);
                }
                GatewayReply {
                    status: 500,
                    response: ChatResponse { message: String::new(), error: Some(msg) },
                }
            },
            Ok(field) => {
                let raw = match field {
                    Some(s) => s,
                    None => String::from_str("No valid response from AI."),
                };
                let message = if apply_formatting {
                    format_ai_response(raw.as_str())
                } else {
                    raw
                };
                GatewayReply {
                    status: 200,
                    response: ChatResponse { message, error: None },
                }
            },
        },
        BackendOutcome::HttpFailure { status } => {
            let msg = String::from_str("Ollama API error: Status ").concat(
                render_dec(status as u64).as_str(),
            );
            GatewayReply {
                status: 502,
                response: ChatResponse { message: String::new(), error: Some(msg) },
            }
        },
        BackendOutcome::TimedOut => GatewayReply {
            status: 504,
            response: ChatResponse {
                message: String::new(),
                error: Some(String::from_str("Request to AI model timed out. Please try again.")),
            },
        },
        BackendOutcome::ConnectFailed => GatewayReply {
            status: 503,
            response: ChatResponse {
                message: String::new(),
                error: Some(String::from_str("Failed to connect to AI model. Is Ollama running?")),
            },
        },
        BackendOutcome::Transport { detail } => {
            let msg = String::from_str("Error communicating with AI model: ").concat(
                detail.as_str(),
            );
            GatewayReply {
                status: 500,
                response: ChatResponse { message: String::new(), error: Some(msg) },
            }
        },
    }
}

} // verus!
