//! Ordered retrieval of the documents of a candidate set, grouped by facet
//! value, over a multi-level facet group hierarchy held in a sorted store.
//!
//! The store itself is read by the caller: the engines here decide, entry by
//! entry, which scan to read, open or close, and which group to emit.

pub mod bitmap;
pub mod key;
pub mod group;
pub mod ascending;
pub mod descending;
