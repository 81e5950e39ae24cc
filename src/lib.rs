//! A backend-agnostic key-value storage model with an in-memory reference
//! engine: byte-string keys and values, atomic patches, immutable snapshots
//! and ordered cursors.

pub mod keys;
pub mod storage;
pub mod memorydb;
pub mod laws;
pub mod timestamping;
