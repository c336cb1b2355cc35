//! Read-side transaction resolver of a multi-version key-value store.
//!
//! A [`CloudReader`] is bound to one immutable [`Snapshot`] and answers, for
//! one key at a time, what the stored bytes mean under transactional
//! semantics: whether a transaction committed or rolled back, which value is
//! visible at a timestamp, and which locks stand in a key range.
//!
//! The snapshot holds three column families. The write family keeps the
//! committed versions of each key, the lock family the current lock of each
//! key, and the extra family the status of transactions that left no
//! version behind.
//!
//! What the reader decides at each record it reads stands in [`steps`], for
//! whoever walks the iterator of a storage engine in place of a snapshot.

pub mod bytes;
pub mod types;
pub mod model;
pub mod snapshot;
pub mod scan;
pub mod steps;
pub mod reader;
pub mod laws;

pub use reader::CloudReader;
pub use snapshot::{ExtraEntry, LockEntry, Snapshot, WriteEntry};
pub use types::{
    CfStatistics, Error, Key, KeyView, Lock, LockType, OldValue, Statistics, TimeStamp,
    TxnCommitRecord, Value, Write, WriteType,
};
