//! Launches configured applications once a named condition holds: the decisions
//! of each trigger's observation, the reading of the interface listing that the
//! Wi-Fi trigger probes, and what a watch does with the single resolution.

pub mod config;
pub mod probe;
pub mod trigger;
pub mod watch;
