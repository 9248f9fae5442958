//! A verified per-core task scheduler with priorities, round-robin time slices,
//! blocking with optional wakeup times, and joins across cores.

pub mod blocked;
pub mod consistency;
pub mod continuity;
pub mod effects;
pub mod joining;
pub mod laws;
pub mod lifecycle;
pub mod machine;
pub mod model;
pub mod pending;
pub mod percore;
pub mod ready;
pub mod runs;
pub mod shared;
pub mod store;
pub mod task;
pub mod wakeups;
