//! An event-ingestion and state-projection engine.
//!
//! Incoming change notifications ("events") are validated, appended to an
//! immutable audit log, and folded into a materialized table of each
//! record's current ("final") state. Readers replay the log or query the
//! projection with cursor-based pagination, and a fuzzy host-name lookup
//! falls back to progressively broader parent domains.

pub mod configurations;
pub mod db;
pub mod paging;
pub mod route;
pub mod text;
