//! A cross-reference index over compiler-emitted analysis records.
//!
//! Loaded units of definitions and references are merged into an index that
//! answers name lookups, reference enumeration and documentation URL queries.
pub mod span;
pub mod raw;
pub mod index;
pub mod query;
pub mod docs;
pub mod host;
