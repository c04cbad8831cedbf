//! Tiered key-value storage: an in-memory map that spills to an append-only
//! temporary file once it grows past a configurable threshold, together with
//! a coalescing free-space allocator and an ordered-sequence abstraction
//! built on top of the store.

pub mod backing;
pub mod codec;
pub mod date;
pub mod disk_free;
pub mod entity_file_cache;
pub mod errors;
pub mod file_hash;
pub mod file_vec;
pub mod laws;
pub mod seppuku;
pub mod text;
pub mod timestamp;
pub mod toolforge_app;
pub mod toolforge_db;
pub mod wikidata;

pub use disk_free::DiskFree;
pub use disk_free::PositionLength;
