//! Data structures.
pub mod fenwick;
