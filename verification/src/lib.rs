//! An in-memory key-value store with per-entry time-to-live expiry.
//!
//! Keys and values are strings; each entry carries an absolute expiry
//! instant fixed at insertion. Lookups are expiry-aware: an entry found
//! stale is removed on the spot, and a bulk purge removes every stale
//! entry at once. Time is modelled as milliseconds on a `u64` axis, so
//! every operation can also be driven at an explicitly supplied instant.

pub mod cache;
pub mod laws;
