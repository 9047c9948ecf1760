//! A manually advanced virtual clock: simulated monotonic and wall-clock
//! time, a queue of pending sleepers and count barriers, all driven by
//! explicit `advance` calls.
pub mod state;
pub mod sync;
pub mod laws;
