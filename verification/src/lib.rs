//! Query-finalization core for a log-structured document store.
//!
//! Given a chunk of materialized log mutations and a compacted, sorted record
//! segment, the library resolves signed candidate bitmaps against the live
//! view "log union segment minus deletions", pages the resulting ordered set
//! of offset ids (the `limit` module), and hydrates a window of offset ids
//! into user-visible rows (the `merge_metadata_results` module).

pub mod bitmap;
pub mod laws;
pub mod limit;
pub mod log;
pub mod merge_metadata_results;
pub mod segment;
pub mod sorted;
