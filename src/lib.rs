//! Per-directory disk usage: the aggregation of a directory walk into
//! per-folder totals, the ranking of those totals for display, and the
//! handling of the command line.

pub mod walk;
pub mod laws;
pub mod report;
pub mod cli;
