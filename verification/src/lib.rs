//! Kordrel: a local orchestrator of workflows.
//!
//! The library holds the rules of the orchestrator: what a valid workflow is,
//! in which order its tasks may run, what each operation does to the recorded
//! state of a run, when a task is retried, and what the read-only interface
//! answers. Reading files, running processes and storing rows is the business
//! of the program around it.

pub mod api;
pub mod cli;
pub mod db;
pub mod decisions;
pub mod faults;
pub mod graph;
pub mod history;
pub mod json;
pub mod laws;
pub mod lifecycle;
pub mod model;
pub mod operations;
pub mod order;
pub mod paths;
pub mod progress;
pub mod readings;
pub mod records;
pub mod recovery;
pub mod scheduler;
pub mod simulation;
pub mod text;
pub mod times;
pub mod worker;
pub mod workflow;
