//! The values that the reader takes and returns: timestamps, keys, write
//! and lock records, commit records, and errors.

use vstd::prelude::*;

verus! {

/// The bytes stored under a key.
pub type Value = Vec<u8>;

/// A point in the store's logical time.
#[derive(Clone, Copy, Debug, PartialEq, Eq, Structural)]
pub struct TimeStamp(pub u64);

impl TimeStamp {
    pub fn new(ts: u64) -> (r: TimeStamp)
        ensures
            r == TimeStamp(ts),
    {
        TimeStamp(ts)
    }

    pub fn zero() -> (r: TimeStamp)
        ensures
            r == TimeStamp(0),
    {
        TimeStamp(0)
    }

    pub fn into_inner(self) -> (r: u64)
        ensures
            r == self.0,
    {
        self.0
    }

    pub fn is_zero(self) -> (r: bool)
        ensures
            r == (self.0 == 0),
    {
        self.0 == 0
    }
}

/// Why an operation of the reader failed.
#[derive(Clone, Copy, Debug, PartialEq, Eq, Structural)]
pub enum Error {
    /// A key has no raw form.
    KeyEncoding,
    /// Stored bytes do not parse into the record they should hold.
    MalformedRecord,
}

/// A typed key: the bytes of its typed form, by which typed keys are
/// ordered, and its raw form, the byte string under which the column
/// families file it. A key whose typed form is damaged has no raw form.
#[derive(Debug, PartialEq, Eq)]
pub struct Key {
    encoded: Vec<u8>,
    raw: Option<Vec<u8>>,
}

/// A key as a mathematical value.
pub struct KeyView {
    pub encoded: Seq<u8>,
    pub raw: Option<Seq<u8>>,
}

impl View for Key {
    type V = KeyView;

    closed spec fn view(&self) -> KeyView {
        KeyView { encoded: self.encoded@, raw: option_bytes_view(self.raw) }
    }
}

impl Key {
    /// The key with the typed form `encoded` and the raw form `raw`, or
    /// without a raw form.
    pub fn new(encoded: Vec<u8>, raw: Option<Vec<u8>>) -> (k: Key)
        ensures
            k@ == (KeyView { encoded: encoded@, raw: option_bytes_view(raw) }),
    {
        Key { encoded, raw }
    }

    /// The bytes of the typed form.
    pub fn as_encoded(&self) -> (r: &Vec<u8>)
        ensures
            r@ == self@.encoded,
    {
        &self.encoded
    }

    /// The raw form of the key, or `Error::KeyEncoding` where it has none.
    pub fn to_raw(&self) -> (r: Result<Vec<u8>, Error>)
        ensures
            match self@.raw {
                Some(raw) => r matches Ok(v) && v@ == raw,
                None => r matches Err(e) && e == Error::KeyEncoding,
            },
    {
        match &self.raw {
            Some(v) => Ok(v.clone()),
            None => Err(Error::KeyEncoding),
        }
    }
}

impl Clone for Key {
    fn clone(&self) -> (r: Key)
        ensures
            r@ == self@,
    {
        let raw = match &self.raw {
            Some(v) => Some(v.clone()),
            None => None,
        };
        Key { encoded: self.encoded.clone(), raw }
    }
}

/// An optional byte vector as an optional byte sequence.
pub open spec fn option_bytes_view(v: Option<Vec<u8>>) -> Option<Seq<u8>> {
    match v {
        Some(b) => Some(b@),
        None => None,
    }
}

/// What a write record did to its key.
#[derive(Clone, Copy, Debug, PartialEq, Eq, Structural)]
pub enum WriteType {
    Put,
    Delete,
    Lock,
    Rollback,
}

/// The record of one transaction's effect on one key.
#[derive(Debug, PartialEq, Eq)]
pub struct Write {
    pub write_type: WriteType,
    pub start_ts: TimeStamp,
    pub short_value: Option<Value>,
}

/// A write record as a mathematical value.
pub struct WriteView {
    pub write_type: WriteType,
    pub start_ts: TimeStamp,
    pub short_value: Option<Seq<u8>>,
}

impl View for Write {
    type V = WriteView;

    open spec fn view(&self) -> WriteView {
        WriteView {
            write_type: self.write_type,
            start_ts: self.start_ts,
            short_value: option_bytes_view(self.short_value),
        }
    }
}

impl Write {
    pub fn new(write_type: WriteType, start_ts: TimeStamp, short_value: Option<Value>) -> (w: Write)
        ensures
            w == (Write { write_type, start_ts, short_value }),
    {
        Write { write_type, start_ts, short_value }
    }
}

impl Clone for Write {
    fn clone(&self) -> (r: Write)
        ensures
            r@ == self@,
    {
        let short_value = match &self.short_value {
            Some(v) => Some(v.clone()),
            None => None,
        };
        Write { write_type: self.write_type, start_ts: self.start_ts, short_value }
    }
}

/// What the transaction that holds a lock intends to do with the key.
#[derive(Clone, Copy, Debug, PartialEq, Eq, Structural)]
pub enum LockType {
    Put,
    Delete,
    Lock,
    Pessimistic,
}

/// The record that reserves a key for a transaction in flight.
#[derive(Debug, PartialEq, Eq)]
pub struct Lock {
    pub lock_type: LockType,
    /// The primary key of the owning transaction.
    pub primary: Vec<u8>,
    /// The start timestamp of the owning transaction.
    pub ts: TimeStamp,
    /// How long the lock may be held, in milliseconds.
    pub ttl: u64,
    /// The value that the transaction is about to write, where it is short
    /// enough to be kept in the lock.
    pub short_value: Option<Value>,
    /// When a pessimistic transaction took the lock; zero for an optimistic
    /// one.
    pub for_update_ts: TimeStamp,
    /// How many keys the owning transaction writes.
    pub txn_size: u64,
    /// The earliest timestamp at which the owning transaction may commit.
    pub min_commit_ts: TimeStamp,
}

/// A lock record as a mathematical value.
pub struct LockView {
    pub lock_type: LockType,
    pub primary: Seq<u8>,
    pub ts: TimeStamp,
    pub ttl: u64,
    pub short_value: Option<Seq<u8>>,
    pub for_update_ts: TimeStamp,
    pub txn_size: u64,
    pub min_commit_ts: TimeStamp,
}

impl View for Lock {
    type V = LockView;

    open spec fn view(&self) -> LockView {
        LockView {
            lock_type: self.lock_type,
            primary: self.primary@,
            ts: self.ts,
            ttl: self.ttl,
            short_value: option_bytes_view(self.short_value),
            for_update_ts: self.for_update_ts,
            txn_size: self.txn_size,
            min_commit_ts: self.min_commit_ts,
        }
    }
}

impl Lock {
    pub fn new(
        lock_type: LockType,
        primary: Vec<u8>,
        ts: TimeStamp,
        ttl: u64,
        short_value: Option<Value>,
        for_update_ts: TimeStamp,
        txn_size: u64,
        min_commit_ts: TimeStamp,
    ) -> (l: Lock)
        ensures
            l == (Lock {
                lock_type,
                primary,
                ts,
                ttl,
                short_value,
                for_update_ts,
                txn_size,
                min_commit_ts,
            }),
    {
        Lock { lock_type, primary, ts, ttl, short_value, for_update_ts, txn_size, min_commit_ts }
    }
}

impl Clone for Lock {
    fn clone(&self) -> (r: Lock)
        ensures
            r@ == self@,
    {
        let short_value = match &self.short_value {
            Some(v) => Some(v.clone()),
            None => None,
        };
        Lock {
            lock_type: self.lock_type,
            primary: self.primary.clone(),
            ts: self.ts,
            ttl: self.ttl,
            short_value,
            for_update_ts: self.for_update_ts,
            txn_size: self.txn_size,
            min_commit_ts: self.min_commit_ts,
        }
    }
}

/// The value that a key had before a write. Its view is that value, where
/// there was one.
#[derive(Debug, PartialEq, Eq)]
pub enum OldValue {
    /// The key had no value, or its last write was a delete.
    NoValue,
    /// The key held `value`.
    Value { value: Value },
}

impl View for OldValue {
    type V = Option<Seq<u8>>;

    open spec fn view(&self) -> Option<Seq<u8>> {
        match self {
            OldValue::NoValue => None,
            OldValue::Value { value } => Some(value@),
        }
    }
}

impl OldValue {
    pub fn value(value: Value) -> (r: OldValue)
        ensures
            r == (OldValue::Value { value }),
    {
        OldValue::Value { value }
    }
}

/// What the store records of one transaction's write to one key.
#[derive(Debug, PartialEq, Eq)]
pub enum TxnCommitRecord {
    /// No trace of the transaction on the key. `overlapped_write` is for a
    /// caller that finds a later write in the transaction's place.
    NotFound { overlapped_write: Option<Write> },
    /// The transaction's record on the key, and when it was committed.
    SingleRecord { commit_ts: TimeStamp, write: Write },
}

/// A commit record as a mathematical value.
pub enum TxnCommitRecordView {
    NotFound { overlapped_write: Option<WriteView> },
    SingleRecord { commit_ts: TimeStamp, write: WriteView },
}

impl View for TxnCommitRecord {
    type V = TxnCommitRecordView;

    open spec fn view(&self) -> TxnCommitRecordView {
        match self {
            TxnCommitRecord::NotFound { overlapped_write } => TxnCommitRecordView::NotFound {
                overlapped_write: match overlapped_write {
                    Some(w) => Some(w@),
                    None => None,
                },
            },
            TxnCommitRecord::SingleRecord { commit_ts, write } => TxnCommitRecordView::SingleRecord {
                commit_ts: *commit_ts,
                write: write@,
            },
        }
    }
}

/// Counters of the reads made against one column family. The reader starts
/// them at zero; its operations do not touch them, they are their owner's
/// to keep.
#[derive(Clone, Copy, Debug, PartialEq, Eq, Structural)]
pub struct CfStatistics {
    pub get: u64,
    pub seek: u64,
    pub next: u64,
}

/// Read counters, one set for each column family.
#[derive(Clone, Copy, Debug, PartialEq, Eq, Structural)]
pub struct Statistics {
    pub write: CfStatistics,
    pub lock: CfStatistics,
    pub extra: CfStatistics,
}

impl Statistics {
    /// The counters of a reader that has read nothing.
    pub open spec fn zeroed() -> Statistics {
        Statistics {
            write: CfStatistics { get: 0, seek: 0, next: 0 },
            lock: CfStatistics { get: 0, seek: 0, next: 0 },
            extra: CfStatistics { get: 0, seek: 0, next: 0 },
        }
    }
}

impl Default for Statistics {
    fn default() -> (r: Statistics)
        ensures
            r == Statistics::zeroed(),
    {
        Statistics {
            write: CfStatistics { get: 0, seek: 0, next: 0 },
            lock: CfStatistics { get: 0, seek: 0, next: 0 },
            extra: CfStatistics { get: 0, seek: 0, next: 0 },
        }
    }
}

} // verus!
