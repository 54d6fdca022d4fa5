//! Durability core of an embedded, page-oriented storage engine: a page
//! store, a write-back page cache with LRU eviction, and a write-ahead log
//! with checksummed, chunked frames.

pub mod bytes;
pub mod checksum;
pub mod frame;
pub mod replay;
pub mod wal;
pub mod wal_history;
pub mod wal_proofs;
pub mod pager;
pub mod page_cache;
pub mod page_cache_proofs;
