//! A verified message store with keyset pagination.
//!
//! Messages are created with store-assigned identifiers and creation
//! instants, listed newest first, and paginated with opaque cursors that
//! encode the timestamp of the last message of a page.

pub mod cursor;
pub mod message;
pub mod page;
pub mod store;
pub mod timestamp;
