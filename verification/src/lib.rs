//! Verified core of a yearly admission-results service: normalization of the
//! publisher's raw records, an idempotent per-year store, the year-to-store
//! handle cache, and the read-only query surface over one year's data.

pub mod error;
pub mod parse;
pub mod text;
pub mod county;
pub mod specializare;
pub mod student;
pub mod store;
pub mod dbmgr;
pub mod ingest;
pub mod laws;
