//! Canonicalization of hierarchical district-assignment samples.
//!
//! A reference topology document assigns every (region, precinct) pair a flat
//! numeric index. Each sample of a line-oriented record stream lists
//! (composite key, district label) entries; the library resolves those keys
//! against the topology, broadcasts region-only keys over every precinct of
//! the region, and emits one dense, fixed-length assignment vector per
//! sample, either as a JSON-lines record or as a compact binary block.

pub mod canon;
pub mod encode;
pub mod keys;
pub mod shape;
mod strutil;
