//! An in-memory key-value cache with per-key time-to-live expiration,
//! together with the line-oriented text protocol that drives it.
//!
//! The store maps byte-string keys to byte-string values; each entry
//! carries an optional absolute expiration instant (seconds on some
//! monotonic clock supplied by the caller). The protocol layer turns one
//! command line into one response line and the matching store update.

pub mod protocol;
pub mod store;
