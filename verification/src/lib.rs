//! Read, restore and maintenance logic for a content-addressed,
//! chunk-deduplicated backup repository.
//!
//! Everything in this crate works on plain values: byte strings, identifiers,
//! parsed records and small state machines.  Reading and writing files, locks,
//! threads and the terminal are the caller's business; the caller hands the
//! bytes in and performs the actions that come back.

pub mod atomic_file_writer;
pub mod backup;
pub mod balance_indexes;
pub mod check_backups;
pub mod data;
pub mod digest;
pub mod disk_format;
pub mod error;
pub mod gc_bundles;
pub mod gc_indexes;
pub mod handler;
pub mod hex;
pub mod idmap;
pub mod index_cache;
pub mod index_file;
pub mod lzma;
pub mod pipeline;
pub mod randaccess;
pub mod random;
pub mod read;
pub mod records;
pub mod repo;
pub mod scan;
pub mod scheduler;
pub mod storage;
pub mod text;
pub mod wire;
