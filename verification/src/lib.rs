//! Build-time obfuscation of event-channel identifiers.
//!
//! The library scans generated source text for quoted event-channel
//! identifiers (values beginning with `client:` or `server:`), derives a
//! deterministic pseudonym for each distinct identifier, and substitutes
//! every occurrence of each identifier with its pseudonym, so that client,
//! server and embedded-browser code stay mutually consistent.

mod bytes;

pub mod digest;
pub mod pattern;
pub mod rewrite;
pub mod table;
