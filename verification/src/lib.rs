//! Indexing, inspection and filtering of HTTP Archive (HAR) files.
//!
//! The byte-level scanner locates the `log.entries` array of a HAR document
//! and the byte range of every entry object in it, so that a viewer can list
//! entries cheaply and decode one entry in full only when it is selected.

pub mod filter;
pub mod har;
pub mod state;
pub mod text;
