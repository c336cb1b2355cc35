//! The reader: one resolver bound to one snapshot.

use std::sync::Arc;
use vstd::prelude::*;
use crate::bytes::{lemma_lex_irreflexive, lemma_lex_transitive, lex_lt};
use crate::model::{
    is_newest, lemma_first_is_newest, lemma_lock_record_at, lemma_newest_unique,
    lemma_no_version_behind, lemma_none_is_newest, lock_before, lock_ordered, lock_record, newest,
    started_at,
    status_record, visible_at, write_ordered, LockRecord, SnapshotView, StatusRecord,
    WriteVersion,
};
use crate::scan::{
    decides, hit_pred, hits, in_range, lemma_answer_tells_admission, lemma_hits_step,
    lemma_scan_exhausted, lemma_scan_full, lemma_scan_malformed, lemma_walked_records_parse,
    pairs_match, raw_of, returned_rightly, scan_result, walked,
};
use crate::steps::{
    holds_lock, item_value, item_write, lock_in_bounds, old_value, status_commit, take_lock,
    version_in_walk, LockStep,
};
use crate::snapshot::{lock_views, write_views, Snapshot, WriteEntry};
use crate::types::{
    option_bytes_view, Error, Key, Lock, LockView, OldValue, Statistics, TimeStamp,
    TxnCommitRecord, TxnCommitRecordView, Value, Write, WriteType, WriteView,
};

verus! {

/// The write record that a stored version stands for: a put of its value,
/// or a delete where the value is empty.
pub open spec fn write_of(v: WriteVersion) -> WriteView {
    if v.value.len() > 0 {
        WriteView {
            write_type: WriteType::Put,
            start_ts: TimeStamp(v.start_ts),
            short_value: Some(v.value),
        }
    } else {
        WriteView {
            write_type: WriteType::Delete,
            start_ts: TimeStamp(v.start_ts),
            short_value: None,
        }
    }
}

/// The commit record that the version `v` is for the transaction that
/// started at `start_ts`: none, unless `v` was written by it.
pub open spec fn commit_by_version(v: WriteVersion, start_ts: TimeStamp) -> Option<TxnCommitRecordView> {
    if v.start_ts == start_ts.0 {
        Some(TxnCommitRecordView::SingleRecord { commit_ts: TimeStamp(v.commit_ts), write: write_of(v) })
    } else {
        None
    }
}

/// The commit record that a status record of the extra family stands for:
/// a rollback where its commit timestamp is zero, else a lock that was
/// cleaned up without a value.
pub open spec fn commit_by_status(s: StatusRecord, start_ts: TimeStamp) -> TxnCommitRecordView {
    TxnCommitRecordView::SingleRecord {
        commit_ts: TimeStamp(s.commit_ts),
        write: WriteView {
            write_type: if s.commit_ts == 0 {
                WriteType::Rollback
            } else {
                WriteType::Lock
            },
            start_ts,
            short_value: None,
        },
    }
}

/// What the snapshot records of the transaction that started at `start_ts`
/// on `key`: its newest version in the write family; failing that, its
/// status record in the extra family; failing that, nothing.
pub open spec fn commit_record(snap: SnapshotView, key: Seq<u8>, start_ts: TimeStamp) -> TxnCommitRecordView {
    match newest(snap.write, key, started_at(start_ts.0)) {
        Some(v) => TxnCommitRecordView::SingleRecord {
            commit_ts: TimeStamp(v.commit_ts),
            write: write_of(v),
        },
        None => match status_record(snap.extra, key, start_ts.0) {
            Some(s) => commit_by_status(s, start_ts),
            None => TxnCommitRecordView::NotFound { overlapped_write: None },
        },
    }
}

/// The lock that stands on `key`: none where the lock family holds nothing
/// for it or holds empty bytes; an error where it holds bytes that do not
/// parse.
pub open spec fn current_lock(snap: SnapshotView, key: Seq<u8>) -> Result<Option<LockView>, Error> {
    match lock_record(snap.lock, key) {
        Some(r) => if r.value.len() == 0 {
            Ok(None)
        } else {
            match r.lock {
                Some(l) => Ok(Some(l)),
                None => Err(Error::MalformedRecord),
            }
        },
        None => Ok(None),
    }
}

/// The value of `key` that a reader at `ts` sees: that of the newest
/// version committed at `ts` or before, unless that version is a delete.
pub open spec fn visible_value(snap: SnapshotView, key: Seq<u8>, ts: TimeStamp) -> Option<Seq<u8>> {
    match newest(snap.write, key, visible_at(ts.0)) {
        Some(v) => if v.value.len() > 0 {
            Some(v.value)
        } else {
            None
        },
        None => None,
    }
}

/// The write record of `key` that a reader at `ts` sees, with its commit
/// timestamp.
pub open spec fn visible_write(snap: SnapshotView, key: Seq<u8>, ts: TimeStamp) -> Option<
    (TimeStamp, WriteView),
> {
    match newest(snap.write, key, visible_at(ts.0)) {
        Some(v) => Some((TimeStamp(v.commit_ts), write_of(v))),
        None => None,
    }
}

/// The value that a key had before a write, given the write record that
/// was visible then.
pub open spec fn old_value_of(prev_write: Option<WriteView>) -> Option<Seq<u8>> {
    match prev_write {
        Some(w) => if w.write_type == WriteType::Put {
            w.short_value
        } else {
            None
        },
        None => None,
    }
}

/// A write record from which an old value can be derived: a delete, or a
/// put that carries its value.
pub open spec fn has_old_value(w: WriteView) -> bool {
    w.write_type == WriteType::Delete || (w.write_type == WriteType::Put && w.short_value is Some)
}

/// An optional write record as a mathematical value.
pub open spec fn option_write_view(w: Option<Write>) -> Option<WriteView> {
    match w {
        Some(w) => Some(w@),
        None => None,
    }
}

/// What `get_txn_commit_record` returns on the snapshot `snap`: the commit
/// record of the transaction on the raw form of the key, or an error where
/// the key has none.
pub open spec fn commit_record_result(
    snap: SnapshotView,
    key: Option<Seq<u8>>,
    start_ts: TimeStamp,
    r: Result<TxnCommitRecord, Error>,
) -> bool {
    match key {
        Some(raw) => r matches Ok(rec) && rec@ == commit_record(snap, raw, start_ts),
        None => r matches Err(e) && e == Error::KeyEncoding,
    }
}

/// What `load_lock` returns on the snapshot `snap`.
pub open spec fn load_lock_result(snap: SnapshotView, key: Option<Seq<u8>>, r: Result<Option<Lock>, Error>) -> bool {
    match key {
        Some(raw) => match current_lock(snap, raw) {
            Ok(Some(l)) => r matches Ok(Some(lock)) && lock@ == l,
            Ok(None) => r matches Ok(None),
            Err(e) => r matches Err(err) && err == e,
        },
        None => r matches Err(e) && e == Error::KeyEncoding,
    }
}

/// What `get` returns on the snapshot `snap`.
pub open spec fn get_result(
    snap: SnapshotView,
    key: Option<Seq<u8>>,
    ts: TimeStamp,
    r: Result<Option<Value>, Error>,
) -> bool {
    match key {
        Some(raw) => r matches Ok(v) && option_bytes_view(v) == visible_value(snap, raw, ts),
        None => r matches Err(e) && e == Error::KeyEncoding,
    }
}

/// What `seek_write` returns on the snapshot `snap`.
pub open spec fn seek_write_result(
    snap: SnapshotView,
    key: Option<Seq<u8>>,
    ts: TimeStamp,
    r: Result<Option<(TimeStamp, Write)>, Error>,
) -> bool {
    match key {
        Some(raw) => r matches Ok(found) && match visible_write(snap, raw, ts) {
            Some(expected) => found matches Some(pair) && pair.0 == expected.0 && pair.1@ == expected.1,
            None => found is None,
        },
        None => r matches Err(e) && e == Error::KeyEncoding,
    }
}

/// What `get_write` returns on the snapshot `snap`.
pub open spec fn get_write_result(
    snap: SnapshotView,
    key: Option<Seq<u8>>,
    ts: TimeStamp,
    r: Result<Option<Write>, Error>,
) -> bool {
    match key {
        Some(raw) => r matches Ok(w) && match visible_write(snap, raw, ts) {
            Some(expected) => option_write_view(w) == Some(expected.1),
            None => w is None,
        },
        None => r matches Err(e) && e == Error::KeyEncoding,
    }
}

/// The lower bound of a scan as a mathematical value: no bound, the raw
/// form of the key, or an error where the key has none.
pub open spec fn start_view(start: Option<&Key>) -> Result<Option<Seq<u8>>, Error> {
    match start {
        Some(k) => match k@.raw {
            Some(raw) => Ok(Some(raw)),
            None => Err(Error::KeyEncoding),
        },
        None => Ok(None),
    }
}

/// The upper bound of a scan as a mathematical value: no bound, or the
/// typed form of the key.
pub open spec fn end_view(end: Option<&Key>) -> Option<Seq<u8>> {
    match end {
        Some(k) => Some(k@.encoded),
        None => None,
    }
}

/// A reader as a mathematical value: the snapshot it is bound to and its
/// counters.
pub struct CloudReaderView {
    pub snapshot: SnapshotView,
    pub statistics: Statistics,
}

/// Resolves keys against one snapshot.
pub struct CloudReader {
    snapshot: Arc<Snapshot>,
    pub statistics: Statistics,
}

impl View for CloudReader {
    type V = CloudReaderView;

    closed spec fn view(&self) -> CloudReaderView {
        CloudReaderView { snapshot: self.snapshot@, statistics: self.statistics }
    }
}

impl CloudReader {
    /// The counters of the reader.
    pub fn statistics(&self) -> (c: Statistics)
        ensures
            c == self@.statistics,
    {
        self.statistics
    }

    /// A reader of `snapshot` that has read nothing yet.
    pub fn new(snapshot: Arc<Snapshot>) -> (r: CloudReader)
        ensures
            r@.snapshot == snapshot@,
            r@.snapshot.wf(),
            r@.statistics == Statistics::zeroed(),
    {
        proof {
            use_type_invariant(&*snapshot);
        }
        CloudReader { snapshot, statistics: Statistics::default() }
    }

    /// The commit record that `item` is for the transaction that started at
    /// `start_ts`.
    pub fn get_commit_by_item(item: &WriteEntry, start_ts: TimeStamp) -> (r: Option<TxnCommitRecord>)
        ensures
            match r {
                Some(rec) => commit_by_version(item@, start_ts) == Some(rec@),
                None => commit_by_version(item@, start_ts) is None,
            },
    {
        if item.start_ts == start_ts.into_inner() {
            let (commit_ts, write) = item_write(item);
            return Some(TxnCommitRecord::SingleRecord { commit_ts, write });
        }
        None
    }

    /// Whether the transaction that started at `start_ts` committed its
    /// write to `key`, rolled it back, or left no trace.
    pub fn get_txn_commit_record(&mut self, key: &Key, start_ts: TimeStamp) -> (r: Result<
        TxnCommitRecord,
        Error,
    >)
        ensures
            *final(self) == *old(self),
            commit_record_result(old(self)@.snapshot, key@.raw, start_ts, r),
    {
        let raw_key = match key.to_raw() {
            Ok(raw) => raw,
            Err(e) => {
                return Err(e);
            },
        };
        let snapshot: &Snapshot = &self.snapshot;
        let versions = snapshot.versions();
        let ghost w = snapshot@.write;
        let ghost p = started_at(start_ts.0);
        if let Some(item) = snapshot.get_version(raw_key.as_slice(), 0) {
            if let Some(record) = Self::get_commit_by_item(item, start_ts) {
                proof {
                    assert(is_newest(w, raw_key@, visible_at(0), item@));
                    assert(is_newest(w, raw_key@, p, item@));
                    lemma_newest_unique(w, raw_key@, p, item@);
                }
                return Ok(record);
            }
        }
        let first: usize = snapshot.seek_version(raw_key.as_slice());
        let mut i: usize = first;
        proof {
            lemma_lex_irreflexive(raw_key@);
        }
        while i < versions.len()
            invariant
                first <= i <= versions.len(),
                w == write_views(versions@),
                w == snapshot@.write,
                self.snapshot@ == snapshot@,
                *self == *old(self),
                p == started_at(start_ts.0),
                key@.raw == Some(raw_key@),
                write_ordered(w),
                !lex_lt(raw_key@, raw_key@),
                forall|j: int| 0 <= j < first ==> lex_lt(#[trigger] w[j].key, raw_key@),
                forall|j: int| first <= j < w.len() ==> !lex_lt(#[trigger] w[j].key, raw_key@),
                forall|j: int| first <= j < i ==> !p(#[trigger] w[j]),
            decreases versions.len() - i,
        {
            if !version_in_walk(raw_key.as_slice(), versions[i].key.as_slice()) {
                proof {
                    lemma_no_version_behind(w, raw_key@, i as int);
                    lemma_none_is_newest(w, raw_key@, p);
                }
                let status = snapshot.get_status(raw_key.as_slice(), start_ts.into_inner());
                return Ok(status_commit(status, start_ts));
            }
            if let Some(record) = Self::get_commit_by_item(&versions[i], start_ts) {
                proof {
                    lemma_first_is_newest(w, raw_key@, p, i as int);
                }
                return Ok(record);
            }
            i += 1;
        }
        proof {
            lemma_none_is_newest(w, raw_key@, p);
        }
        let status = snapshot.get_status(raw_key.as_slice(), start_ts.into_inner());
        Ok(status_commit(status, start_ts))
    }

    /// The lock that stands on `key`, if any.
    pub fn load_lock(&self, key: &Key) -> (r: Result<Option<Lock>, Error>)
        ensures
            load_lock_result(self@.snapshot, key@.raw, r),
    {
        let raw_key = match key.to_raw() {
            Ok(raw) => raw,
            Err(e) => {
                return Err(e);
            },
        };
        let snapshot: &Snapshot = &self.snapshot;
        match snapshot.get_lock(raw_key.as_slice()) {
            None => Ok(None),
            Some(entry) => {
                if !holds_lock(entry.value.as_slice()) {
                    return Ok(None);
                }
                match &entry.lock {
                    Some(lock) => Ok(Some(lock.clone())),
                    None => Err(Error::MalformedRecord),
                }
            },
        }
    }

    /// The value of `key` that a reader at `ts` sees, if it sees one.
    pub fn get(&mut self, key: &Key, ts: TimeStamp, _gc_fence_limit: Option<TimeStamp>) -> (r: Result<
        Option<Value>,
        Error,
    >)
        ensures
            *final(self) == *old(self),
            get_result(old(self)@.snapshot, key@.raw, ts, r),
    {
        let raw_key = match key.to_raw() {
            Ok(raw) => raw,
            Err(e) => {
                return Err(e);
            },
        };
        let snapshot: &Snapshot = &self.snapshot;
        match snapshot.get_version(raw_key.as_slice(), ts.into_inner()) {
            Some(item) => Ok(item_value(item.value.as_slice())),
            None => Ok(None),
        }
    }

    /// The write record of `key` that a reader at `ts` sees, if it sees
    /// one.
    pub fn get_write(&mut self, key: &Key, ts: TimeStamp, _gc_fence_limit: Option<TimeStamp>) -> (r:
        Result<Option<Write>, Error>)
        ensures
            *final(self) == *old(self),
            get_write_result(old(self)@.snapshot, key@.raw, ts, r),
    {
        match self.seek_write(key, ts) {
            Ok(Some((_, write))) => Ok(Some(write)),
            Ok(None) => Ok(None),
            Err(e) => Err(e),
        }
    }

    /// The write record of `key` that a reader at `ts` sees, with the
    /// timestamp of its commit.
    pub fn seek_write(&mut self, key: &Key, ts: TimeStamp) -> (r: Result<Option<(TimeStamp, Write)>, Error>)
        ensures
            *final(self) == *old(self),
            seek_write_result(old(self)@.snapshot, key@.raw, ts, r),
    {
        let raw_key = match key.to_raw() {
            Ok(raw) => raw,
            Err(e) => {
                return Err(e);
            },
        };
        let snapshot: &Snapshot = &self.snapshot;
        match snapshot.get_version(raw_key.as_slice(), ts.into_inner()) {
            Some(item) => Ok(Some(item_write(item))),
            None => Ok(None),
        }
    }

    /// The value that a key had before a write, given the write record
    /// `prev_write` that was visible then.
    pub fn get_old_value(&mut self, prev_write: Option<Write>) -> (r: Result<OldValue, Error>)
        requires
            prev_write matches Some(w) ==> has_old_value(w@),
        ensures
            *final(self) == *old(self),
            r matches Ok(v) && v@ == old_value_of(option_write_view(prev_write)),
    {
        Ok(old_value(prev_write))
    }

    /// The locks that `filter` admits among the records from `start` up to
    /// `end`, in key order, `limit` of them at most unless `limit` is zero;
    /// and whether the scan ended because the limit was reached, so that
    /// more such locks may stand behind the last one returned. The scan
    /// begins at the raw form of `start`; it ends before the first record
    /// whose key, as a typed key, is not before `end`.
    pub fn scan_locks<F>(&mut self, start: Option<&Key>, end: Option<&Key>, filter: F, limit: usize) -> (r:
        Result<(Vec<(Key, Lock)>, bool), Error>) where F: Fn(&Lock) -> bool
        requires
            forall|x: &Lock| call_requires(filter, (x,)),
        ensures
            *final(self) == *old(self),
            match start_view(start) {
                Ok(s) => scan_result(old(self)@.snapshot, s, end_view(end), filter, limit, r),
                Err(e) => r matches Err(err) && err == e,
            },
    {
        let mut locks: Vec<(Key, Lock)> = Vec::new();
        let snapshot: &Snapshot = &self.snapshot;
        let raw_start: Option<Vec<u8>> = match start {
            Some(key) => match key.to_raw() {
                Ok(raw) => Some(raw),
                Err(e) => {
                    return Err(e);
                },
            },
            None => None,
        };
        let entries = snapshot.locks();
        let first: usize = match &raw_start {
            Some(raw) => snapshot.seek_lock(raw.as_slice()),
            None => 0,
        };
        let ghost l = snapshot@.lock;
        let ghost s = option_bytes_view(raw_start);
        let ghost e = end_view(end);
        let ghost lo = first as int;
        let mut i: usize = first;
        assert(hits(l.subrange(lo, lo), filter) =~= Seq::<LockRecord>::empty()) by {
            reveal(Seq::filter);
            assert(l.subrange(lo, lo) =~= Seq::<LockRecord>::empty());
        }
        while i < entries.len()
            invariant
                *self == *old(self),
                self@.snapshot == snapshot@,
                l == snapshot@.lock,
                l == lock_views(entries@),
                lock_ordered(l),
                start_view(start) == Ok::<Option<Seq<u8>>, Error>(s),
                e == end_view(end),
                forall|x: &Lock| call_requires(filter, (x,)),
                walked(l, s, e, lo, i as int),
                forall|j: int| lo <= j < l.len() ==> (s matches Some(sk) ==> !lex_lt((#[trigger] l[j]).key, sk)),
                limit > 0 ==> locks.len() < limit,
                forall|k: int| 0 <= k < locks.len() ==> returned_rightly(snapshot@, s, e, filter, #[trigger] locks[k]),
                forall|a: int, b: int|
                    0 <= a < b < locks.len() ==> lex_lt(raw_of(#[trigger] locks[a]), raw_of(#[trigger] locks[b])),
                forall|k: int, j: int|
                    0 <= k < locks.len() && i <= j < l.len() ==> lex_lt(
                        raw_of(#[trigger] locks[k]),
                        (#[trigger] l[j]).key,
                    ),
                decides(filter) ==> pairs_match(locks@, hits(l.subrange(lo, i as int), filter)),
            decreases entries.len() - i,
        {
            let entry = &entries[i];
            if !lock_in_bounds(entry.typed_key.as_slice(), end) {
                proof {
                    let bound = e->0;
                    assert forall|j: int| i <= j < l.len() implies !in_range(#[trigger] l[j], s, e) by {
                        if j > i && lex_lt(l[j].typed_key, bound) {
                            assert(lock_before(l[i as int], l[j]));
                            lemma_lex_transitive(l[i as int].typed_key, l[j].typed_key, bound);
                        }
                    }
                    lemma_scan_exhausted(l, s, e, filter, limit, lo, i as int);
                }
                return Ok((locks, false));
            }
            assert(in_range(l[i as int], s, e));
            let lock = match &entry.lock {
                Some(lock) => lock,
                None => {
                    proof {
                        lemma_scan_malformed(l, s, e, filter, limit, lo, i as int);
                    }
                    return Err(Error::MalformedRecord);
                },
            };
            let admitted: bool = filter(lock);
            proof {
                lemma_hits_step(l, filter, lo, i as int);
                lemma_answer_tells_admission(filter, *lock, admitted);
                assert(decides(filter) ==> hit_pred(filter)(l[i as int]) == admitted);
            }
            match take_lock(locks.len(), limit, admitted) {
                LockStep::Skip => {},
                step => {
                    let pair = (Key::new(entry.typed_key.clone(), Some(entry.key.clone())), lock.clone());
                    proof {
                        lemma_lock_record_at(l, i as int);
                        assert(returned_rightly(snapshot@, s, e, filter, pair));
                        assert forall|j: int| i + 1 <= j < l.len() implies lex_lt(raw_of(pair), (#[trigger] l[j]).key) by {
                            assert(lock_before(l[i as int], l[j]));
                        }
                    }
                    locks.push(pair);
                    if let LockStep::TakeAndStop = step {
                        proof {
                            lemma_walked_records_parse(l, s, e, lo, i as int + 1);
                            if decides(filter) {
                                lemma_scan_full(l, s, e, filter, limit, lo, i as int + 1);
                            }
                        }
                        return Ok((locks, true));
                    }
                },
            }
            i += 1;
        }
        proof {
            lemma_scan_exhausted(l, s, e, filter, limit, lo, i as int);
        }
        Ok((locks, false))
    }
}

} // verus!
