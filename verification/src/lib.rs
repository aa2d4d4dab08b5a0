//! A log-structured key-value store over an append-only log of checksummed
//! records.
//!
//! Every mutation appends one record to the log; an index maps each key to
//! the offset of its latest record, and can always be rebuilt by replaying
//! the log from its first byte.

pub mod checksum;
pub mod index;
pub mod le;
pub mod log;
pub mod record;
pub mod store;
