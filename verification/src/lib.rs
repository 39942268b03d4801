//! The request-admission-and-caching pipeline of a small static-file HTTP
//! server: per-client admission control, classification of request targets
//! against the served root, a frequency-based response cache, and the framing
//! of responses for buffered and streamed delivery.
//!
//! Paths, request texts and bodies are byte strings. Sockets, files and
//! threads live with the caller; this crate holds the decisions.

pub mod admission;
pub mod bytes;
pub mod cache;
pub mod counters;
pub mod request;
pub mod resolver;
pub mod response;
pub mod routing;

