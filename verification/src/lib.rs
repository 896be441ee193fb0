//! Liveness bookkeeping for a fleet of periodically probed hosts.
//!
//! Each host owns a compact event log of up/down transitions
//! ([`machine::MachineState`]); the log answers point-in-time and windowed
//! availability queries in time proportional to the number of transitions.
//! A sweep over the fleet is planned by [`sched`], which prioritises hosts
//! and bounds the number of concurrently outstanding probes.

mod clock;
pub mod fleet;
pub mod info;
pub mod machine;
pub mod sched;
pub mod stats;
pub mod textscan;
