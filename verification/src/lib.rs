//! Field-column discovery for a time-series query engine.
//!
//! Given a predicate and a snapshot of the catalog, the planner decides which
//! tables to scan and which field columns each scan projects; given the rows
//! those scans produced, the aggregator reduces them to one sorted list of
//! fields, each with its type and the latest time at which it held a value.
pub mod aggregate;
pub mod batch;
pub mod catalog;
pub mod fieldlist;
pub mod laws;
pub mod name_map;
pub mod name_order;
pub mod plan;
pub mod planner;
pub mod predicate;
pub mod schema;
