//! Ingest and reconciliation engine for a mirrored game market: typed
//! identifiers, order books, snapshot deltas, the serial book applicator and
//! the upstream request policy, each stated against a mathematical model.
pub mod applicator;
pub mod auth;
pub mod book;
pub mod budget;
pub mod debounce;
pub mod delta;
pub mod laws;
pub mod order;
pub mod query;
pub mod refresh;
pub mod snapshot;
pub mod text;
pub mod time;
pub mod universe;
