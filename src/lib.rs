//! A durable work queue: the job model, the queue engine's state machine and
//! its claim protocol, and the encoding of job rows for a relational store.

pub mod claim;
mod ids;
pub mod job;
pub mod laws;
pub mod memory;
pub mod storage;
