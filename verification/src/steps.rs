//! The decisions of the reader, one record at a time. The reader takes
//! them as it walks a snapshot; whoever walks the iterator of a storage
//! engine takes the same ones, and reads no further than they say.

use vstd::prelude::*;
use vstd::slice::slice_to_vec;
use crate::bytes::{bytes_eq, bytes_lt, lex_lt};
use crate::reader::{commit_by_status, has_old_value, old_value_of, option_write_view, write_of};
use crate::snapshot::{ExtraEntry, WriteEntry};
use crate::types::{
    option_bytes_view, Key, OldValue, TimeStamp, TxnCommitRecord, TxnCommitRecordView, Value,
    Write, WriteType,
};

verus! {

/// The value that a reader sees in the bytes of the item that a point
/// lookup in the write family gave: the bytes, unless they are empty.
pub fn item_value(value: &[u8]) -> (r: Option<Value>)
    ensures
        option_bytes_view(r) == if value@.len() > 0 {
            Some(value@)
        } else {
            None::<Seq<u8>>
        },
{
    if value.len() > 0 {
        Some(slice_to_vec(value))
    } else {
        None
    }
}

/// The write record that the version `item` stands for, and the timestamp
/// of its commit.
pub fn item_write(item: &WriteEntry) -> (r: (TimeStamp, Write))
    ensures
        r.0 == TimeStamp(item.commit_ts),
        r.1@ == write_of(item@),
{
    let write_type: WriteType;
    let short_value: Option<Value>;
    if item.value.len() == 0 {
        write_type = WriteType::Delete;
        short_value = None;
    } else {
        write_type = WriteType::Put;
        short_value = Some(item.value.clone());
    }
    let write = Write::new(write_type, TimeStamp::new(item.start_ts), short_value);
    (TimeStamp::new(item.commit_ts), write)
}

/// Whether the walk through the versions of `raw_key` goes on at a version
/// of `key`: it does while the key is the same.
pub fn version_in_walk(raw_key: &[u8], key: &[u8]) -> (r: bool)
    ensures
        r == (key@ == raw_key@),
{
    bytes_eq(key, raw_key)
}

/// The commit record of a transaction that left no version in the write
/// family, given what the extra family holds for it: a rollback or a lock
/// where it holds a status record, and no record where it holds none.
pub fn status_commit(status: Option<&ExtraEntry>, start_ts: TimeStamp) -> (r: TxnCommitRecord)
    ensures
        r@ == match status {
            Some(s) => commit_by_status(s@, start_ts),
            None => TxnCommitRecordView::NotFound { overlapped_write: None },
        },
{
    match status {
        None => TxnCommitRecord::NotFound { overlapped_write: None },
        Some(status) => {
            let write = if status.commit_ts == 0 {
                Write::new(WriteType::Rollback, start_ts, None)
            } else {
                Write::new(WriteType::Lock, start_ts, None)
            };
            TxnCommitRecord::SingleRecord { commit_ts: TimeStamp::new(status.commit_ts), write }
        },
    }
}

/// Whether the bytes that a point lookup in the lock family gave hold a
/// lock: empty bytes hold none.
pub fn holds_lock(value: &[u8]) -> (r: bool)
    ensures
        r == (value@.len() > 0),
{
    value.len() > 0
}

/// The value that a key had before a write, given the write record
/// `prev_write` that was visible then: the value of a put, and none after a
/// delete or where no record was visible.
pub fn old_value(prev_write: Option<Write>) -> (r: OldValue)
    requires
        prev_write matches Some(w) ==> has_old_value(w@),
    ensures
        r@ == old_value_of(option_write_view(prev_write)),
{
    if let Some(write) = prev_write {
        match write.write_type {
            WriteType::Delete => {
                return OldValue::NoValue;
            },
            WriteType::Put => {
                return OldValue::value(write.short_value.unwrap());
            },
            _ => {
                return vstd::pervasive::unreached();
            },
        }
    }
    OldValue::NoValue
}

/// What to do with a lock that has been parsed and shown to the filter.
#[derive(Clone, Copy, Debug, PartialEq, Eq, Structural)]
pub enum LockStep {
    /// Leave the lock out and go on.
    Skip,
    /// Add the lock to the result and go on.
    Take,
    /// Add the lock to the result and end the scan: the limit is reached.
    TakeAndStop,
}

/// Whether a scan that ends at `end` goes on to the record whose key has
/// the typed form `typed_key`: it does unless the key, as a typed key, is
/// not before `end`.
pub fn lock_in_bounds(typed_key: &[u8], end: Option<&Key>) -> (r: bool)
    ensures
        r == (end matches Some(k) ==> lex_lt(typed_key@, k@.encoded)),
{
    match end {
        Some(k) => bytes_lt(typed_key, k.as_encoded().as_slice()),
        None => true,
    }
}

/// What a scan with `limit` that has taken `taken` locks does with the next
/// one, given the filter's answer: it skips a lock that the filter refuses,
/// and ends with the lock that fills the limit.
pub fn take_lock(taken: usize, limit: usize, admitted: bool) -> (r: LockStep)
    requires
        limit > 0 ==> taken < limit,
    ensures
        r == if !admitted {
            LockStep::Skip
        } else if limit > 0 && taken + 1 == limit {
            LockStep::TakeAndStop
        } else {
            LockStep::Take
        },
{
    if !admitted {
        LockStep::Skip
    } else if limit > 0 && taken + 1 == limit {
        LockStep::TakeAndStop
    } else {
        LockStep::Take
    }
}

} // verus!
