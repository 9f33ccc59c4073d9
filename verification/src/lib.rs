//! A memory-light full-text search index.
//!
//! Every document is kept as a Bloom filter over its normalized tokens. A
//! query names one or more keywords; the documents whose filters hold all of
//! them are reported in the order in which they were first inserted. A hit may
//! be a false positive, a miss never is.

pub mod bloom;
pub mod errors;
pub mod fs_index;
pub mod hash;
pub mod index;
pub mod ingest;
pub mod laws;
pub mod sizing;
pub mod snapshot;
pub mod tokens;

pub use bloom::{BloomFilter, FilterParts};
pub use errors::{Error, IoFailure};
pub use fs_index::FsIndex;
pub use index::DocumentIndex;
pub use ingest::{Entry, EntryKind, Reading, Source};
pub use sizing::ErrorRate;
pub use snapshot::{Snapshot, SnapshotEntry};
pub use tokens::normalize;
