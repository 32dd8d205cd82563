//! A single-route HTTP relay core: materializes a query string's dotted
//! path/value pairs into one nested JSON document, and classifies the
//! outcome of forwarding that document upstream.
//!
//! Paths follow the dotted grammar with a trailing-dot literal marker: the
//! key `a.b` names a string entry, while `a.b.` asks for its value to be
//! parsed as a JSON literal. The service plumbing around the core (routing,
//! the upstream HTTP client, logging) stays outside the library and hands it
//! plain values.

pub mod decode;
pub mod error;
pub mod json;
pub mod laws;
pub mod materialize;
pub mod relay;
