//! Dotted-path lookup over a nested YAML document.
//!
//! A nested mapping whose leaves are strings is flattened into a single
//! mapping from dot-joined composite keys to leaf values, exposed through
//! [`backend::Backend`] with `get`/`set` access by full dotted key.

pub mod backend;
pub mod document;
pub mod errors;
