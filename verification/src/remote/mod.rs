//! The agent-facing side channel, as far as it decides anything: which log entries a query
//! returns, what a run-state request does, and the id that names this run of the process.

pub mod entities;
pub mod logs;
pub mod run;
pub mod run_id;
