//! A sharded, content-checksummed object store over a pluggable byte-storage
//! backend.
//!
//! Callers write and read byte blobs under string keys inside named buckets.
//! The engine packs blobs into fixed-capacity append-only shards, tracks their
//! location in an index, optionally compresses them, and validates integrity
//! on every read. The index is a derived, rebuildable cache: it can be
//! reconstructed at any time by rescanning the shards of a bucket.

pub mod alist;
pub mod bucket;
pub mod checksum;
pub mod compress;
pub mod codec;
pub mod error;
pub mod index;
pub mod memory;
pub mod shard;
pub mod storage;

pub use bucket::Bucket;
pub use error::Error;
pub use storage::StorageProvider;
