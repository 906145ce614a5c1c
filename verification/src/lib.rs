//! A polyphonic voice-distribution scheduler and a fixed-point peak limiter.
//!
//! The scheduler fans a stream of packed note commands out across a set of
//! fixed-capacity playback slots and keeps the per-slot load bookkeeping; the
//! limiter bounds the peak amplitude of a rendered signal. Both are verified:
//! the scheduler against a mathematical model of its routing table, the
//! limiter against per-sample state equations.

pub mod laws;
pub mod limiter;
pub mod samples;
pub mod scheduler;
pub mod text;
