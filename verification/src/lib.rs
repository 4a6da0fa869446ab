//! An embedded in-memory key/value store with typed values, secondary
//! indexes, per-record time-to-live, and length-prefixed compressed
//! snapshots of the whole state.
//!
//! The engine is a single value: [`db::Db`]. Callers supply the clock
//! (nanoseconds since the Unix epoch) to every operation that reads the
//! time, so the behaviour of each operation is a function of its
//! arguments; an outer layer owns the wall clock, the snapshot files and
//! any locking.

pub mod codec;
pub mod config;
pub mod db;
pub mod error;
pub mod index;
pub mod laws;
pub mod order;
pub mod stat_record;
pub mod user_index;
pub mod value_record;
