//! A content-defined deduplication engine: files are cut into chunks by a
//! rolling-hash chunker, chunks are named by their BLAKE3 digest, and a
//! content store keeps files, unique chunks and the per-file section map.
use vstd::prelude::*;

pub mod adapter;
pub mod chunking;
pub mod config;
pub mod entries;
pub mod events;
pub mod ids;
pub mod keyed;
pub mod store;

pub use adapter::{chunk_source, records_to_rows};
pub use chunking::{collect_records, get_chunk_hashes, hash_chunk, ChunkMetadata, HashEngineError};
pub use config::{AppConfig, ChunkConfig, HashConfig, NetworkConfig, PrivacyConfig, SkieContext};
pub use entries::{ChunkTableEntry, FileSectionEntry, FileTableEntry};
pub use events::{OsEvent, OsEventKind, RawEvent, RawEventKind};
pub use ids::{ChunkID, FileID};
pub use store::{DataStore, DataStoreError, Fetch, Persist};

verus! {

} // verus!
