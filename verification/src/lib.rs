//! A small gateway library for a chat front-end over a local language-model
//! inference server.
//!
//! The heart of the library is [`formatter::format_ai_response`], a verified
//! text-reflow routine that turns free-form model output into a numbered
//! list (or a single tidied paragraph), together with the verified mapping
//! from backend call outcomes to HTTP replies in [`gateway`].

pub mod chars;
pub mod fragments;
pub mod sorting;
pub mod numbers;
pub mod formatter;
pub mod backend_json;
pub mod gateway;
pub mod stability;
