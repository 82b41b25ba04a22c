//! A caching layer that turns random-access reads of a single file into
//! reference-counted views over aligned chunks, so that overlapping or
//! repeated reads of the same region share one in-memory buffer.
//!
//! The library is the verified core of such a cache: the chunk table with its
//! reader counts and eviction-on-zero-readers, the validation of requested
//! ranges, and the stitching that reconstructs an arbitrary byte range from
//! one or more cached chunks. The file itself is an outside collaborator:
//! whoever drives the cache reads the missing chunks from disk and hands
//! their bytes in as plain values, and the contracts state what the cache
//! does with them.
//!
//! The two read paths treat short reads differently, by design: the chunked
//! path tolerates a short read near end-of-file (the chunk buffer's
//! remainder stays zero, and the mapping clips at the requested range),
//! while the direct raw path demands an exact fill and treats a short read
//! as an I/O failure.

use vstd::prelude::*;

pub mod chunk;
pub mod laws;
pub mod mapping;
pub mod model;
pub mod table;
pub mod view;

pub use chunk::Chunk;
pub use mapping::FileViewMapping;
pub use mapping::FileViewMappingChunks;
pub use table::ChunkEntry;
pub use table::ChunkTable;
pub use view::FileView;
pub use view::FileViewError;

verus! {

/// Size in bytes of one cache chunk; every cached buffer is anchored at a
/// multiple of this value.
pub const CHUNK_SIZE: usize = 0x8000;

} // verus!
