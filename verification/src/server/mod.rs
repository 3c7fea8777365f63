//! The services of a server: leases, watches, reads and writes, administration.

pub mod admin_service;
pub mod apply;
pub mod args;
pub mod backup;
pub mod guarantees;
pub mod http;
pub mod kv_service;
pub mod lease;
pub mod lease_service;
pub mod publish;
pub mod server;
pub mod status;
pub mod watch;
pub mod watch_service;
