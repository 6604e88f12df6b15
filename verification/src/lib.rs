//! A schema-migration engine for a single embedded database file.
//!
//! The engine decides; it performs no I/O. A host hands it an ordered list of
//! versioned migrations, carries out the requests it issues against the
//! database, and reports each result back. Every decision is specified over a
//! mathematical model of the migration set and the ledger, and proved.

pub mod executor;
pub mod ledger;
pub mod migration;
pub mod planner;
pub mod runner;
