//! A parallel build orchestrator: the dependency graph of the steps of a
//! project, its reduction and its focusing on a target, the scheduler that
//! hands out the steps that may run, and the coordinator that keeps the
//! results of a run.

pub mod acyclic;
pub mod cfg;
pub mod command;
pub mod config;
pub mod config_file;
pub mod depgraph;
pub mod dot;
pub mod envdict;
pub mod executor;
pub mod linearize;
pub mod parallelize;
pub mod progress;
pub mod reach;
pub mod statistics;
pub mod step;
pub mod text;

pub use config_file::ExecConfig;
pub use executor::RunError;
pub use statistics::RunStatistics;
