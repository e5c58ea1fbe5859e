//! Coordination of a fixed set of concurrent workers whose interleaved
//! event streams are re-emitted to an observer in a fixed priority order.
//!
//! The library holds the logic of the system: the [`mux::Multiplexer`]
//! state machine that reorders the interleaved streams, the
//! [`limiter::PermitPool`] that accounts for the concurrency cap, and the
//! [`worker::worker_events`] generator for a single worker's stream.
//! Threads, channels and timing live with the caller; the state machine is
//! driven one event at a time.

pub mod event;
pub mod limiter;
pub mod mux;
pub mod worker;
