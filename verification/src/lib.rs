//! Periodic jobs and the external scheduler that runs them.
//!
//! The library keeps job records in line with the text of the system's
//! scheduler, in both directions, and tells when a recurrence expression
//! fires next. It does no input or output: the caller reads and writes the
//! text, runs the processes and keeps the store.

pub mod calendar;
pub mod chars;
pub mod cron_expr;
pub mod error;
pub mod importer;
pub mod job;
pub mod logs;
pub mod python;
pub mod reconcile;
pub mod recurrence;
pub mod runner;
pub mod schedule_text;
pub mod sync;
