//! An immutable, point-in-time view of the three column families, and the
//! lookups that a storage engine offers on it.
//!
//! A snapshot holds the records of the families as plain values. Whoever
//! binds the reader to a storage engine reads the engine's records into
//! one; the version metadata of a record is held decoded, and a lock record
//! holds beside its bytes the typed form of its key and the lock that the
//! bytes parse into.

use vstd::prelude::*;
use crate::bytes::{
    bytes_eq, bytes_lt, lemma_lex_irreflexive, lemma_lex_le_lt, lemma_lex_transitive,
    lemma_lex_trichotomy, lex_lt,
};
use crate::model::{
    extra_distinct, lemma_first_is_newest, lemma_lock_record_at, lemma_no_version_behind,
    lemma_none_is_newest, lemma_status_record_at, lock_ordered, lock_record, newest, same_slot,
    status_record, version_before, visible_at, write_ordered, lock_before, LockRecord, SnapshotView,
    StatusRecord, WriteVersion,
};
use crate::types::Lock;

verus! {

/// One committed version of a key, as the write family stores it.
#[derive(Debug, PartialEq, Eq)]
pub struct WriteEntry {
    pub key: Vec<u8>,
    pub start_ts: u64,
    pub commit_ts: u64,
    /// The value written; empty for a delete.
    pub value: Vec<u8>,
}

impl View for WriteEntry {
    type V = WriteVersion;

    open spec fn view(&self) -> WriteVersion {
        WriteVersion {
            key: self.key@,
            start_ts: self.start_ts,
            commit_ts: self.commit_ts,
            value: self.value@,
        }
    }
}

impl WriteEntry {
    pub fn new(key: Vec<u8>, start_ts: u64, commit_ts: u64, value: Vec<u8>) -> (e: WriteEntry)
        ensures
            e == (WriteEntry { key, start_ts, commit_ts, value }),
    {
        WriteEntry { key, start_ts, commit_ts, value }
    }
}

/// What the lock family stores for a key.
#[derive(Debug, PartialEq, Eq)]
pub struct LockEntry {
    pub key: Vec<u8>,
    /// The typed form of `key`.
    pub typed_key: Vec<u8>,
    /// The stored bytes.
    pub value: Vec<u8>,
    /// The lock that `value` parses into; `None` where it does not parse.
    pub lock: Option<Lock>,
}

impl View for LockEntry {
    type V = LockRecord;

    open spec fn view(&self) -> LockRecord {
        LockRecord {
            key: self.key@,
            typed_key: self.typed_key@,
            value: self.value@,
            lock: match self.lock {
                Some(l) => Some(l@),
                None => None,
            },
        }
    }
}

impl LockEntry {
    pub fn new(key: Vec<u8>, typed_key: Vec<u8>, value: Vec<u8>, lock: Option<Lock>) -> (e: LockEntry)
        ensures
            e == (LockEntry { key, typed_key, value, lock }),
    {
        LockEntry { key, typed_key, value, lock }
    }
}

/// A status record, as the extra family stores it.
#[derive(Debug, PartialEq, Eq)]
pub struct ExtraEntry {
    pub key: Vec<u8>,
    pub start_ts: u64,
    /// Zero for a rollback.
    pub commit_ts: u64,
}

impl View for ExtraEntry {
    type V = StatusRecord;

    open spec fn view(&self) -> StatusRecord {
        StatusRecord { key: self.key@, start_ts: self.start_ts, commit_ts: self.commit_ts }
    }
}

impl ExtraEntry {
    pub fn new(key: Vec<u8>, start_ts: u64, commit_ts: u64) -> (e: ExtraEntry)
        ensures
            e == (ExtraEntry { key, start_ts, commit_ts }),
    {
        ExtraEntry { key, start_ts, commit_ts }
    }
}

/// The versions that `s` stores, in its order.
pub open spec fn write_views(s: Seq<WriteEntry>) -> Seq<WriteVersion> {
    Seq::new(s.len(), |i: int| s[i]@)
}

/// The lock records that `s` stores, in its order.
pub open spec fn lock_views(s: Seq<LockEntry>) -> Seq<LockRecord> {
    Seq::new(s.len(), |i: int| s[i]@)
}

/// The status records that `s` stores, in its order.
pub open spec fn extra_views(s: Seq<ExtraEntry>) -> Seq<StatusRecord> {
    Seq::new(s.len(), |i: int| s[i]@)
}

/// The snapshot that holds the three families as given.
pub open spec fn contents(write: Seq<WriteEntry>, lock: Seq<LockEntry>, extra: Seq<ExtraEntry>) -> SnapshotView {
    SnapshotView { write: write_views(write), lock: lock_views(lock), extra: extra_views(extra) }
}

proof fn lemma_version_before_transitive(a: WriteVersion, b: WriteVersion, c: WriteVersion)
    requires
        version_before(a, b),
        version_before(b, c),
    ensures
        version_before(a, c),
{
    if a.key != b.key && b.key != c.key {
        lemma_lex_transitive(a.key, b.key, c.key);
    }
}

/// Whether the write family `w` is in order.
fn write_in_order(w: &Vec<WriteEntry>) -> (r: bool)
    ensures
        r == write_ordered(write_views(w@)),
{
    let ghost s = write_views(w@);
    let mut i: usize = 1;
    while i < w.len()
        invariant
            1 <= i,
            s == write_views(w@),
            forall|a: int, b: int| 0 <= a < b < i && b < s.len() ==> version_before(#[trigger] s[a], #[trigger] s[b]),
        decreases w.len() - i,
    {
        let prev = &w[i - 1];
        let cur = &w[i];
        let before = bytes_lt(prev.key.as_slice(), cur.key.as_slice()) || (bytes_eq(
            prev.key.as_slice(),
            cur.key.as_slice(),
        ) && prev.commit_ts > cur.commit_ts);
        if !before {
            assert(!version_before(s[i - 1], s[i as int]));
            return false;
        }
        proof {
            assert forall|a: int, b: int| 0 <= a < b < i + 1 && b < s.len() implies version_before(
                #[trigger] s[a],
                #[trigger] s[b],
            ) by {
                if b == i && a < i - 1 {
                    lemma_version_before_transitive(s[a], s[i - 1], s[i as int]);
                }
            }
        }
        i += 1;
    }
    true
}

/// Whether the lock family `l` is in order.
fn lock_in_order(l: &Vec<LockEntry>) -> (r: bool)
    ensures
        r == lock_ordered(lock_views(l@)),
{
    let ghost s = lock_views(l@);
    let mut i: usize = 1;
    while i < l.len()
        invariant
            1 <= i,
            s == lock_views(l@),
            forall|a: int, b: int| 0 <= a < b < i && b < s.len() ==> lock_before(#[trigger] s[a], #[trigger] s[b]),
        decreases l.len() - i,
    {
        let before = bytes_lt(l[i - 1].key.as_slice(), l[i].key.as_slice()) && bytes_lt(
            l[i - 1].typed_key.as_slice(),
            l[i].typed_key.as_slice(),
        );
        if !before {
            assert(!lock_before(s[i - 1], s[i as int]));
            return false;
        }
        proof {
            assert forall|a: int, b: int| 0 <= a < b < i + 1 && b < s.len() implies lock_before(
                #[trigger] s[a],
                #[trigger] s[b],
            ) by {
                if b == i && a < i - 1 {
                    assert(lock_before(s[a], s[i - 1]));
                    lemma_lex_transitive(s[a].key, s[i - 1].key, s[i as int].key);
                    lemma_lex_transitive(s[a].typed_key, s[i - 1].typed_key, s[i as int].typed_key);
                }
            }
        }
        i += 1;
    }
    true
}

/// Whether no two records of the extra family `e` share key and start
/// timestamp.
fn extra_is_distinct(e: &Vec<ExtraEntry>) -> (r: bool)
    ensures
        r == extra_distinct(extra_views(e@)),
{
    let ghost s = extra_views(e@);
    let mut i: usize = 0;
    while i < e.len()
        invariant
            i <= e.len(),
            s == extra_views(e@),
            forall|a: int, b: int| 0 <= a < b < s.len() && a < i ==> !same_slot(#[trigger] s[a], #[trigger] s[b]),
        decreases e.len() - i,
    {
        let mut j: usize = i + 1;
        while j < e.len()
            invariant
                i < j <= e.len(),
                s == extra_views(e@),
                forall|b: int| i < b < j ==> !same_slot(s[i as int], #[trigger] s[b]),
            decreases e.len() - j,
        {
            if e[i].start_ts == e[j].start_ts && bytes_eq(e[i].key.as_slice(), e[j].key.as_slice()) {
                assert(same_slot(s[i as int], s[j as int]));
                return false;
            }
            j += 1;
        }
        i += 1;
    }
    true
}

/// One immutable state of the store. Whoever holds a snapshot reads the
/// same contents for as long as it lives.
pub struct Snapshot {
    write: Vec<WriteEntry>,
    lock: Vec<LockEntry>,
    extra: Vec<ExtraEntry>,
}

impl View for Snapshot {
    type V = SnapshotView;

    closed spec fn view(&self) -> SnapshotView {
        contents(self.write@, self.lock@, self.extra@)
    }
}

impl Snapshot {
    /// Every snapshot keeps its families in order.
    #[verifier::type_invariant]
    pub open spec fn inv(&self) -> bool {
        self@.wf()
    }

    /// The snapshot that holds the three families as given, each in the
    /// order in which an iterator is to walk it; `None` where they are not
    /// in the order that `SnapshotView::wf` asks for.
    pub fn new(write: Vec<WriteEntry>, lock: Vec<LockEntry>, extra: Vec<ExtraEntry>) -> (r: Option<
        Snapshot,
    >)
        ensures
            match r {
                Some(s) => s@ == contents(write@, lock@, extra@) && s@.wf(),
                None => !contents(write@, lock@, extra@).wf(),
            },
    {
        if write_in_order(&write) && lock_in_order(&lock) && extra_is_distinct(&extra) {
            Some(Snapshot { write, lock, extra })
        } else {
            None
        }
    }

    /// The write family.
    pub fn versions(&self) -> (r: &Vec<WriteEntry>)
        ensures
            write_views(r@) == self@.write,
            self@.wf(),
    {
        proof {
            use_type_invariant(self);
        }
        &self.write
    }

    /// The lock family.
    pub fn locks(&self) -> (r: &Vec<LockEntry>)
        ensures
            lock_views(r@) == self@.lock,
            self@.wf(),
    {
        proof {
            use_type_invariant(self);
        }
        &self.lock
    }

    /// Point lookup in the write family: the version of `key` with the
    /// latest commit that is not after `ts`; with a `ts` of zero, the latest
    /// of all.
    pub fn get_version(&self, key: &[u8], ts: u64) -> (r: Option<&WriteEntry>)
        ensures
            match r {
                Some(e) => newest(self@.write, key@, visible_at(ts)) == Some(e@),
                None => newest(self@.write, key@, visible_at(ts)) is None,
            },
    {
        proof {
            use_type_invariant(self);
        }
        let ghost w = self@.write;
        let first: usize = self.seek_version(key);
        let mut i: usize = first;
        proof {
            lemma_lex_irreflexive(key@);
        }
        while i < self.write.len() && bytes_eq(self.write[i].key.as_slice(), key)
            invariant
                first <= i <= self.write.len(),
                w == write_views(self.write@),
                write_ordered(w),
                !lex_lt(key@, key@),
                forall|j: int| 0 <= j < first ==> lex_lt(#[trigger] w[j].key, key@),
                forall|j: int| first <= j < w.len() ==> !lex_lt(#[trigger] w[j].key, key@),
                forall|j: int| first <= j < i ==> !visible_at(ts)(#[trigger] w[j]),
            decreases self.write.len() - i,
        {
            let e = &self.write[i];
            if ts == 0 || e.commit_ts <= ts {
                proof {
                    lemma_first_is_newest(w, key@, visible_at(ts), i as int);
                }
                return Some(e);
            }
            i += 1;
        }
        proof {
            lemma_no_version_behind(w, key@, i as int);
            lemma_none_is_newest(w, key@, visible_at(ts));
        }
        None
    }

    /// Where a forward iterator over the write family stands after a seek
    /// to `key`: at the first version whose key is not before `key`.
    pub fn seek_version(&self, key: &[u8]) -> (i: usize)
        ensures
            i <= self@.write.len(),
            forall|j: int| 0 <= j < i ==> lex_lt(#[trigger] self@.write[j].key, key@),
            forall|j: int| i <= j < self@.write.len() ==> !lex_lt(#[trigger] self@.write[j].key, key@),
    {
        proof {
            use_type_invariant(self);
        }
        let ghost w = self@.write;
        let mut lo: usize = 0;
        let mut hi: usize = self.write.len();
        while lo < hi
            invariant
                lo <= hi <= self.write.len(),
                w == write_views(self.write@),
                write_ordered(w),
                forall|j: int| 0 <= j < lo ==> lex_lt(#[trigger] w[j].key, key@),
                forall|j: int| hi <= j < w.len() ==> !lex_lt(#[trigger] w[j].key, key@),
            decreases hi - lo,
        {
            let mid: usize = lo + (hi - lo) / 2;
            if bytes_lt(self.write[mid].key.as_slice(), key) {
                proof {
                    assert forall|j: int| 0 <= j < mid + 1 implies lex_lt(#[trigger] w[j].key, key@) by {
                        if j < mid {
                            assert(version_before(w[j], w[mid as int]));
                            lemma_lex_le_lt(w[j].key, w[mid as int].key, key@);
                        }
                    }
                }
                lo = mid + 1;
            } else {
                proof {
                    assert forall|j: int| mid <= j < w.len() implies !lex_lt(#[trigger] w[j].key, key@) by {
                        if j > mid && lex_lt(w[j].key, key@) {
                            assert(version_before(w[mid as int], w[j]));
                            lemma_lex_le_lt(w[mid as int].key, w[j].key, key@);
                        }
                    }
                }
                hi = mid;
            }
        }
        lo
    }

    /// Point lookup in the lock family: the record stored for `key`.
    pub fn get_lock(&self, key: &[u8]) -> (r: Option<&LockEntry>)
        ensures
            match r {
                Some(e) => lock_record(self@.lock, key@) == Some(e@),
                None => lock_record(self@.lock, key@) is None,
            },
    {
        proof {
            use_type_invariant(self);
        }
        let ghost l = self@.lock;
        let i: usize = self.seek_lock(key);
        if i < self.lock.len() && bytes_eq(self.lock[i].key.as_slice(), key) {
            proof {
                lemma_lock_record_at(l, i as int);
            }
            return Some(&self.lock[i]);
        }
        proof {
            lemma_lex_irreflexive(key@);
            assert forall|j: int| 0 <= j < l.len() implies (#[trigger] l[j]).key != key@ by {
                if j > i {
                    assert(lock_before(l[i as int], l[j]));
                    lemma_lex_trichotomy(l[i as int].key, key@);
                    lemma_lex_transitive(key@, l[i as int].key, l[j].key);
                }
            }
        }
        None
    }

    /// Where a forward iterator over the lock family stands after a seek to
    /// `key`: at the first record whose key is not before `key`.
    pub fn seek_lock(&self, key: &[u8]) -> (i: usize)
        ensures
            i <= self@.lock.len(),
            forall|j: int| 0 <= j < i ==> lex_lt(#[trigger] self@.lock[j].key, key@),
            forall|j: int| i <= j < self@.lock.len() ==> !lex_lt(#[trigger] self@.lock[j].key, key@),
    {
        proof {
            use_type_invariant(self);
        }
        let ghost l = self@.lock;
        let mut lo: usize = 0;
        let mut hi: usize = self.lock.len();
        while lo < hi
            invariant
                lo <= hi <= self.lock.len(),
                l == lock_views(self.lock@),
                lock_ordered(l),
                forall|j: int| 0 <= j < lo ==> lex_lt(#[trigger] l[j].key, key@),
                forall|j: int| hi <= j < l.len() ==> !lex_lt(#[trigger] l[j].key, key@),
            decreases hi - lo,
        {
            let mid: usize = lo + (hi - lo) / 2;
            if bytes_lt(self.lock[mid].key.as_slice(), key) {
                proof {
                    assert forall|j: int| 0 <= j < mid + 1 implies lex_lt(#[trigger] l[j].key, key@) by {
                        if j < mid {
                            assert(lock_before(l[j], l[mid as int]));
                            lemma_lex_transitive(l[j].key, l[mid as int].key, key@);
                        }
                    }
                }
                lo = mid + 1;
            } else {
                proof {
                    assert forall|j: int| mid <= j < l.len() implies !lex_lt(#[trigger] l[j].key, key@) by {
                        if j > mid && lex_lt(l[j].key, key@) {
                            assert(lock_before(l[mid as int], l[j]));
                            lemma_lex_transitive(l[mid as int].key, l[j].key, key@);
                        }
                    }
                }
                hi = mid;
            }
        }
        lo
    }

    /// Point lookup in the extra family: the status record stored for `key`
    /// and `start_ts`.
    pub fn get_status(&self, key: &[u8], start_ts: u64) -> (r: Option<&ExtraEntry>)
        ensures
            match r {
                Some(e) => status_record(self@.extra, key@, start_ts) == Some(e@),
                None => status_record(self@.extra, key@, start_ts) is None,
            },
    {
        proof {
            use_type_invariant(self);
        }
        let ghost x = self@.extra;
        let mut i: usize = 0;
        while i < self.extra.len()
            invariant
                i <= self.extra.len(),
                x == extra_views(self.extra@),
                extra_distinct(x),
                forall|j: int| 0 <= j < i ==> !((#[trigger] x[j]).key == key@ && x[j].start_ts == start_ts),
            decreases self.extra.len() - i,
        {
            let e = &self.extra[i];
            if e.start_ts == start_ts && bytes_eq(e.key.as_slice(), key) {
                proof {
                    lemma_status_record_at(x, i as int);
                }
                return Some(e);
            }
            i += 1;
        }
        None
    }
}

} // verus!
