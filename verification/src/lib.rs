//! A verified library for interpreting a streamed edit script.
//!
//! The library turns a chunk-delivered text stream into structured edit
//! actions, locates search text inside a document (exactly, or up to a
//! uniform indentation shift), and drives an edit session that applies
//! the resulting diffs, deduplicates touched documents, and assembles a
//! single textual report of what succeeded and what failed.

pub mod matcher;
pub mod parser;
pub mod request;
pub mod session;
pub mod store;
pub mod tool;
pub mod text;
