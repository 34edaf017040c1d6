//! Bulk renaming: a safe execution order for a batch of renames, and the
//! decisions of a batch as it runs, each proved against its contract.

pub mod schedule;
pub mod session;
