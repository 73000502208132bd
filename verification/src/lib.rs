//! Caching and renewal engine for a markdown documentation aggregator.
//!
//! The library holds the merged, per-source document tree, a rendering of
//! that tree, and a time-bounded cache of document contents keyed by content
//! hash.  Remote providers and HTTP serving live outside the library; the
//! functions here take plain values (listings, fetched bytes, timestamps) and
//! return plain values, so that every caching and merging decision is
//! verified.

pub mod cache;
pub mod config;
pub mod content;
pub mod github;
pub mod gitlab;
pub mod order;
pub mod repo;
pub mod strutil;
