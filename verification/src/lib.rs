//! A small greeting service: a fixed root message, a fixed hello message,
//! and a greeting that interpolates a caller-supplied name, served either as
//! plain text or as a JSON object with a single `message` member.
//!
//! The library holds the whole request/response logic: the handler bodies,
//! the JSON framing of the greeting payload, and the route dispatch from
//! method and path to a response. The surrounding binary only binds a socket
//! and feeds requests through [`router::dispatch`].

pub mod handlers;
pub mod json;
pub mod router;
