//! A verified persistent task store for a command-line task tracker.
//!
//! The store keeps an ordered list of tasks, persists it as one
//! self-describing record per line, and pairs it with a monotonic
//! identifier allocator persisted as a single decimal counter.
//! Everything here is pure computation on plain values; reading and
//! writing the two backing files is left to the surrounding program.

pub mod codec;
pub mod counter;
pub mod digits;
pub mod store;
pub mod task;
