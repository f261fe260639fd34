//! The error taxonomy of the store.

use vstd::prelude::*;

verus! {

/// Every fallible operation of the store returns one of these.
#[derive(Debug, PartialEq, Eq)]
pub enum Error {
    /// A backend call failed; the message carries the backend's description.
    /// Never retried internally: retry policy belongs to the provider.
    Io(String),
    /// A checksum mismatch on read. Fatal for that read call; the index is
    /// not affected.
    Integrity,
    /// A single record's size exceeds the configured maximum shard size, so
    /// the record can never fit in any shard. Distinct from the ordinary
    /// roll-to-a-new-shard path, which is not an error.
    ShardCapacityExceeded,
    /// The selected compression algorithm has no implemented codec.
    UnsupportedCompression,
    /// A read or metadata lookup against an absent key.
    KeyNotFound,
    /// A rebuild could not reconstruct a consistent index.
    Index(String),
}

impl Error {
    /// A short human-readable description of the error.
    pub fn describe(&self) -> (r: &'static str)
        ensures
            r@.len() > 0,
    {
        match self {
            Error::Io(_) => {
                proof {
                    reveal_strlit("backend call failed");
                }
                "backend call failed"
            },
            Error::Integrity => {
                proof {
                    reveal_strlit("checksum mismatch");
                }
                "checksum mismatch"
            },
            Error::ShardCapacityExceeded => {
                proof {
                    reveal_strlit("record exceeds maximum shard size");
                }
                "record exceeds maximum shard size"
            },
            Error::UnsupportedCompression => {
                proof {
                    reveal_strlit("unsupported compression algorithm");
                }
                "unsupported compression algorithm"
            },
            Error::KeyNotFound => {
                proof {
                    reveal_strlit("key not found");
                }
                "key not found"
            },
            Error::Index(_) => {
                proof {
                    reveal_strlit("index rebuild failed");
                }
                "index rebuild failed"
            },
        }
    }
}

} // verus!
