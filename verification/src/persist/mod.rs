//! The decisions of the disk tier.
//!
//! Memory holds what is hot; disk holds everything. Eviction is a memory
//! concern -- a definition pushed out of the map is still on disk, and reading
//! it back costs a page fault rather than a round trip to an upstream that
//! stalls on 40% of cold requests. Nothing is evicted from disk to make room
//! for something newer; entries leave when they expire, or when the table is
//! over its cap -- which is a backstop against a caller enumerating
//! coordinates, not a working-set limit, since ClearlyDefined answers 200 even
//! for coordinates that do not exist.
//!
//! Nothing here touches the disk. The table is read and written outside, row by
//! row, and what becomes of each row is decided here.

pub mod evict;
pub mod record;
pub mod sweep;
pub mod writer;
