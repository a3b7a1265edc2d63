//! Host-side orchestration of a cluster of data-processing units (DPUs).
//!
//! The crate holds the decisions of the execution pipeline: how DPUs are
//! bundled into groups, how work items are batched onto groups, how a batch is
//! laid out as transfer matrices, how polled statuses are merged and
//! classified, and how results are handed back. Every stage is a state machine
//! that is resumed with the answer to its last request and replies with the
//! next effects to perform; threads, channels and the accelerator driver live
//! with the caller.

pub mod buffers;
pub mod cluster;
pub mod communication;
pub mod config;
pub mod dpu;
pub mod driver;
pub mod error;
pub mod memory;
pub mod pipeline;
pub mod program;
pub mod target;
pub mod view;
