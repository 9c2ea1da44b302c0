//! A typed client library for a text and image generation API.
//!
//! `stream` decodes streamed chat completions from transport chunks that may
//! split records anywhere; `api` holds the request paths and the routing of
//! responses by status; `chat` holds the request and chunk types.

pub mod api;
pub mod chat;
pub mod stream;
