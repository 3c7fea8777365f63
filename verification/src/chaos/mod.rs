//! Simulated failures, and a cluster in one process to meet them.

pub mod clock;
pub mod disk;
pub mod network;
pub mod outcomes;
pub mod history;
pub mod harness;
