//! A fixed-size-page storage layer: an allocation bitmap over page
//! identifiers, a disk manager that allocates pages and places them in the
//! backing file, an LRU eviction policy, and a buffer pool that caches pages
//! in frames and tells its caller which pages to read and write back.
pub mod bitmap;
pub mod constants;
pub mod disk;
pub mod policy;
pub mod lru;
pub mod buffer;
