//! An OpenAI-compatible chat-completions relay: the wire logic and the decisions behind it.

pub mod buffer;
pub mod config;
pub mod convert;
pub mod document;
pub mod egress;
pub mod error;
pub mod header;
pub mod identity;
pub mod object;
pub mod relay;
pub mod reply;
pub mod request;
pub mod route;
pub mod server;
pub mod sse;
pub mod stream;
pub mod text;
