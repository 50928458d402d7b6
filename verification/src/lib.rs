//! The core of a chat assistant runtime: a message store, per-group queues
//! with a concurrency bound, prompt assembly, parsing of agent container
//! output, task scheduling and batch message ingestion, each function
//! verified against its contract.
pub mod text;
pub mod sort;
pub mod str_map;
pub mod sorted_set;
pub mod types;
pub mod config;
pub mod cli;
pub mod db;
pub mod router;
pub mod container_output;
pub mod queue;
pub mod group_queue;
pub mod runtime;
pub mod scheduler;
pub mod ipc_loop;
pub mod e2e;
