//! A verified core for a DAG workflow orchestrator.
//!
//! Workflows are directed acyclic graphs of tasks. The engine creates runs of
//! a workflow for scheduled logical dates, computes each task's depth as its
//! dispatch priority, dispatches ready tasks through a score-ordered queue
//! under a global concurrency cap, records per-task status and result
//! histories, retries failures up to a per-task bound, prunes branches,
//! expands dynamic tasks, and recovers tasks that exceed their timeout.
//!
//! All durable state lives in [`engine::Orchestrator`]; callers perform the
//! actual task execution and hand the outcome back to the engine, which makes
//! every scheduling decision here, under contract.

pub mod task;

pub mod run;

pub mod engine;

pub mod cron;

pub mod schedule;
