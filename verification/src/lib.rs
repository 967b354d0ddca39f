//! A log-structured key-value store in the manner of Bitcask: append-only data
//! files on disk and an in-memory directory that locates the latest value of
//! every key.
//!
//! The crate decides; it does not touch the disk. Each operation takes what was
//! read from disk as plain bytes and returns what has to be written or read
//! next. `model` says what a directory of files holds and `timeline` what happens
//! to it; `laws`, `merge_laws`, `timeline_laws` and `names` prove how the
//! operations and such a directory fit together. `store_laws`, `loading_laws`
//! and `format_laws` say of each operation and each format when it accepts what,
//! and what comes of it.

pub mod checksum;
pub mod key_dir;
pub mod format_laws;
pub mod laws;
pub mod le;
pub mod loading_laws;
pub mod merge;
pub mod merge_laws;
pub mod model;
pub mod names;
pub mod record;
pub mod recovery;
pub mod scan;
pub mod store;
pub mod store_laws;
pub mod text;
pub mod timeline;
pub mod timeline_laws;

pub use key_dir::{KeyDir, KeyDirEntry};
pub use merge::{Copied, Merge, MergeError};
pub use names::{data_file_id, data_file_ids, data_file_name, hint_file_name, is_superseded};
pub use recovery::{FileImage, LoadError};
pub use store::{
    value_from_bytes, Append, OffsetOverflow, ReadAt, Ronin, WriteError, MAX_FILE_SIZE,
};
