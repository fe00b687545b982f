//! Constants shared by the storage layer.
use vstd::prelude::*;

verus! {

/// Size in bytes of every page.
pub const PAGE_SIZE: u32 = 4096;

/// Identifier reserved at construction for the catalog's root page.
pub const CATALOG_ROOT_ID: u32 = 0;

/// Number of page identifiers tracked by one word of the allocation bitmap.
pub const BITS_PER_WORD: u32 = 64;

/// Number of bitmap words that give every `u32` page identifier a bit.
pub const MAX_WORDS: u32 = 67108864;

} // verus!
