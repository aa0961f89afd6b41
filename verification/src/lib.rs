//! An embedded key-value store over an append-only log of checksummed
//! records, with an in-memory index from key to the byte offset of the
//! latest record for that key.
//!
//! The log is held as a byte buffer; reading it from a file and writing
//! appended bytes back belong to the caller.  Not safe for concurrent
//! handles over the same underlying file: one store owns the log at a time.

pub mod codec;
pub mod offset_index;
pub mod store;

pub use codec::KeyValeuPair;
pub use codec::StoreError;
pub use offset_index::OffsetIndex;
pub use store::DBKV;
