//! Concurrent computation graph executor.
//!
//! A computation is a directed acyclic graph of tasks. The crate
//! - builds a stable topological order of the tasks and detects cycles when the
//!   executor is set up,
//! - tells children with a single parent (owned) from children with several
//!   parents (shared), so that owned children need no synchronization,
//! - runs every task once per execution, after all of its parents, and hands it
//!   the parents' outputs.
//!
//! Key modules:
//! - `config`: binds a concrete task type to the executor.
//! - `task`: the `Task` interface and the `SetupApi`/`ExecApi` used by tasks.
//! - `executor`: the executor itself, its graph setup and its execution.
//! - `graph`: the mathematical model of a task graph: subscriptions, cycles,
//!   topological orders, distances.
//! - `types`: task identifiers and the slots of the executor.
//! - `task_map`: insertion-ordered maps keyed by task.

pub mod config;
pub mod executor;
pub mod graph;
pub mod outside;
pub mod task;
pub mod task_map;
pub mod types;
pub mod utils;
