//! A versioned cache over a key-value store, with sequentially numbered
//! collections and read/write-set derivation.
use vstd::prelude::*;

pub mod cache;
pub mod codec;
pub mod keys;
pub mod store;
pub mod types;

pub use cache::{Cache, Entry};
pub use keys::{get_index_rw_set, key_of};
pub use store::{KvBackend, MemoryStore, StoreError};
pub use types::{CachedPost, Post};

verus! {

/// Error kinds surfaced by the cache layer.
#[derive(Debug, Clone, Copy, PartialEq, Eq, Structural)]
pub enum CacheError {
    /// The backing store could not be reached or failed an operation.
    BackendUnavailable,
    /// Stored bytes could not be decoded.
    CorruptEntry,
    /// A page request with a page number or page size of zero.
    InvalidPageRequest,
    /// A version or a counter would pass `u32::MAX`.
    Overflow,
}

} // verus!
