//! A sans-I/O core for a small log-structured key-value store.
//!
//! Writes gather in an ordered in-memory buffer; when the buffer outgrows its
//! threshold it is sealed into an immutable, key-sorted segment. The engine
//! never touches the file system itself: it decides what has to be written or
//! read, and the caller carries that out and reports back.

pub mod codec;
pub mod compactor;
pub mod directory;
pub mod error;
pub mod laws;
pub mod memdisk;
pub mod memtable;
pub mod naming;
pub mod records;
pub mod segment;
pub mod store;

pub use codec::{decode_all, decode_one, encode, Record};
pub use compactor::merge;
pub use directory::{SegmentDirectory, SegmentEntry};
pub use error::StoreError;
pub use memdisk::MemDisk;
pub use memtable::Memtable;
pub use naming::{parse_segment_name, segment_path};
pub use segment::{bounds, scan, seek};
pub use store::{DingoStore, FlushPlan, FoundSegment, GetStep, InsertStep};
