//! A database of fixed-width keys in separately chained buckets.
//!
//! The files of a database are byte images: the library lays them out, reads
//! and changes them, and whoever uses it moves them to and from storage.

pub mod accounting;
pub mod allocator;
pub mod batch;
pub mod bytes;
pub mod config;
pub mod copying;
pub mod database;
pub mod deletion;
pub mod error;
pub mod exercise;
pub mod format;
pub mod hash;
pub mod hazard;
pub mod header;
pub mod insertion;
pub mod inspection;
pub mod lanes;
pub mod layout;
pub mod load;
pub mod manifest;
pub mod mapped_file;
pub mod node;
pub mod outcomes;
pub mod pages;
pub mod prepared;
pub mod reading;
pub mod refusals;
pub mod removal;
pub mod ring;
pub mod search;
pub mod snapshot;
pub mod storage;
pub mod table;
pub mod text;
pub mod transitions;
pub mod values;

pub use config::{Config, Mode, DEFAULT_HASH_SEED, KEY_SIZE, MAX_INLINE_VALUE_SIZE};
pub use database::{Database, PutResult, WriteOnlyWriter};
pub use error::Error;
pub use hash::xxh64;
