//! Program-lifecycle manager and dispatch-chain multiplexer for eBPF programs
//! that share one attachment point per network interface.

pub mod errors;
pub mod manager;
pub mod utils;
pub mod actor;
