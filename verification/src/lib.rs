//! An in-memory catalog of audio file metadata: incremental scanning with
//! dedup by path, content-derived record identities, a line-based snapshot
//! format with a proven round trip, and a query engine that filters,
//! sorts, paginates by cursor and computes related-facet sets.

pub mod codec;
pub mod laws;
pub mod music_db;
pub mod query;
pub mod song;
pub mod text;
