//! Backup pruning: decide which timestamped snapshots to keep under a list
//! of periodic retention policies, with the decisions proved against a
//! mathematical model of the schedule.

pub mod retention;
pub mod laws;
pub mod input;
