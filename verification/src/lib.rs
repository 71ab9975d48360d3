//! Per-process synchronization-resource manager.
//!
//! The library models the slot tables for mutexes, counting semaphores and
//! condition variables of one process, the per-task allocation matrices and
//! single outstanding request, and the Banker's-style safety check that, when
//! detection is enabled, refuses an acquisition that could wedge the system.

pub mod tally;
pub mod state;
pub mod safety;
pub mod manager;
