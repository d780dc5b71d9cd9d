//! Core state machine of a panic monitor: a record of which threads have
//! panicked, with query operations that report the panicked members of a
//! caller-supplied watch list.
//!
//! Thread identities are carried as plain `u64` values and a panicked thread
//! is described by a [`monitor::ThreadRecord`] holding its identity and
//! optional name.  The blocking shell (the global panic hook, the lock and
//! the condition variable) lives outside this crate and drives the state
//! machine through [`monitor::PanicMonitor::record`],
//! [`monitor::PanicMonitor::check`] and [`monitor::remaining_after`].

pub mod monitor;
pub mod laws;

pub use monitor::PanicMonitor;
pub use monitor::ThreadRecord;
pub use monitor::remaining_after;
