//! The snapshot as a mathematical value: what the three column families
//! hold, which orders they keep, and what a lookup in each of them finds.

use vstd::prelude::*;
use crate::bytes::{lemma_lex_irreflexive, lemma_lex_le_lt, lemma_lex_trichotomy, lex_lt};
use crate::types::LockView;

verus! {

/// One committed version of a key in the write family. An empty `value`
/// records a delete.
pub struct WriteVersion {
    pub key: Seq<u8>,
    pub start_ts: u64,
    pub commit_ts: u64,
    pub value: Seq<u8>,
}

/// What the lock family holds for a key: the typed form of the key, the
/// stored bytes, and the lock they parse into, if they parse.
pub struct LockRecord {
    pub key: Seq<u8>,
    pub typed_key: Seq<u8>,
    pub value: Seq<u8>,
    pub lock: Option<LockView>,
}

/// A status record of the extra family, filed under a key and the start
/// timestamp of a transaction that left no version in the write family.
/// A `commit_ts` of zero records a rollback.
pub struct StatusRecord {
    pub key: Seq<u8>,
    pub start_ts: u64,
    pub commit_ts: u64,
}

/// The contents of a snapshot, each family in the order in which an iterator
/// walks it.
pub struct SnapshotView {
    pub write: Seq<WriteVersion>,
    pub lock: Seq<LockRecord>,
    pub extra: Seq<StatusRecord>,
}

/// `a` is walked before `b`: its key is smaller, or the key is the same and
/// `a` is the later commit.
pub open spec fn version_before(a: WriteVersion, b: WriteVersion) -> bool {
    lex_lt(a.key, b.key) || (a.key == b.key && a.commit_ts > b.commit_ts)
}

/// The write family is in key order, and the versions of one key run from
/// the newest commit to the oldest, no two with the same commit timestamp.
pub open spec fn write_ordered(w: Seq<WriteVersion>) -> bool {
    forall|i: int, j: int| 0 <= i < j < w.len() ==> version_before(#[trigger] w[i], #[trigger] w[j])
}

/// `a` is walked before `b`: its key is smaller, and so is the typed form
/// of its key.
pub open spec fn lock_before(a: LockRecord, b: LockRecord) -> bool {
    lex_lt(a.key, b.key) && lex_lt(a.typed_key, b.typed_key)
}

/// The lock family is in key order and holds one record for a key at most,
/// and the typed forms of the keys keep the order of the keys.
pub open spec fn lock_ordered(l: Seq<LockRecord>) -> bool {
    forall|i: int, j: int| 0 <= i < j < l.len() ==> lock_before(#[trigger] l[i], #[trigger] l[j])
}

/// `a` and `b` are filed under the same key and start timestamp.
pub open spec fn same_slot(a: StatusRecord, b: StatusRecord) -> bool {
    a.key == b.key && a.start_ts == b.start_ts
}

/// The extra family holds one record for a key and start timestamp at most.
pub open spec fn extra_distinct(e: Seq<StatusRecord>) -> bool {
    forall|i: int, j: int| 0 <= i < j < e.len() ==> !same_slot(#[trigger] e[i], #[trigger] e[j])
}

impl SnapshotView {
    /// What holds of every snapshot.
    pub open spec fn wf(self) -> bool {
        &&& write_ordered(self.write)
        &&& lock_ordered(self.lock)
        &&& extra_distinct(self.extra)
    }
}

/// The versions that a reader at `ts` may see: those committed at `ts` or
/// before it. A `ts` of zero sets no ceiling.
pub open spec fn visible_at(ts: u64) -> spec_fn(WriteVersion) -> bool {
    |v: WriteVersion| ts == 0 || v.commit_ts <= ts
}

/// The versions written by the transaction that started at `start_ts`.
pub open spec fn started_at(start_ts: u64) -> spec_fn(WriteVersion) -> bool {
    |v: WriteVersion| v.start_ts == start_ts
}

/// `v` is a version of `key` in `w` that satisfies `p`, and no other such
/// version was committed later.
pub open spec fn is_newest(
    w: Seq<WriteVersion>,
    key: Seq<u8>,
    p: spec_fn(WriteVersion) -> bool,
    v: WriteVersion,
) -> bool {
    &&& w.contains(v)
    &&& v.key == key
    &&& p(v)
    &&& forall|u: WriteVersion| #[trigger] w.contains(u) && u.key == key && p(u) ==> u.commit_ts <= v.commit_ts
}

/// The latest commit among the versions of `key` in `w` that satisfy `p`,
/// if there is any.
pub open spec fn newest(w: Seq<WriteVersion>, key: Seq<u8>, p: spec_fn(WriteVersion) -> bool) -> Option<
    WriteVersion,
> {
    if exists|v: WriteVersion| is_newest(w, key, p, v) {
        Some(choose|v: WriteVersion| is_newest(w, key, p, v))
    } else {
        None
    }
}

/// The record that the lock family holds for `key`, if it holds one.
pub open spec fn lock_record(l: Seq<LockRecord>, key: Seq<u8>) -> Option<LockRecord> {
    if exists|i: int| 0 <= i < l.len() && (#[trigger] l[i]).key == key {
        Some(l[choose|i: int| 0 <= i < l.len() && (#[trigger] l[i]).key == key])
    } else {
        None
    }
}

/// The record that the extra family holds for `key` and `start_ts`, if it
/// holds one.
pub open spec fn status_record(e: Seq<StatusRecord>, key: Seq<u8>, start_ts: u64) -> Option<
    StatusRecord,
> {
    if exists|i: int| 0 <= i < e.len() && (#[trigger] e[i]).key == key && e[i].start_ts == start_ts {
        Some(e[choose|i: int| 0 <= i < e.len() && (#[trigger] e[i]).key == key && e[i].start_ts == start_ts])
    } else {
        None
    }
}

/// In an ordered family the newest version is the only one of its kind.
pub proof fn lemma_newest_unique(
    w: Seq<WriteVersion>,
    key: Seq<u8>,
    p: spec_fn(WriteVersion) -> bool,
    v: WriteVersion,
)
    requires
        write_ordered(w),
        is_newest(w, key, p, v),
    ensures
        newest(w, key, p) == Some(v),
{
    lemma_lex_irreflexive(key);
    let c = choose|c: WriteVersion| is_newest(w, key, p, c);
    let i = choose|i: int| 0 <= i < w.len() && w[i] == v;
    let m = choose|m: int| 0 <= m < w.len() && w[m] == c;
    assert(w.contains(c) && w.contains(v));
    if m < i {
        assert(version_before(w[m], w[i]));
    } else if m > i {
        assert(version_before(w[i], w[m]));
    }
}

/// The first version of `key` that satisfies `p`, in the order of the
/// family, is the newest one.
pub proof fn lemma_first_is_newest(
    w: Seq<WriteVersion>,
    key: Seq<u8>,
    p: spec_fn(WriteVersion) -> bool,
    i: int,
)
    requires
        write_ordered(w),
        0 <= i < w.len(),
        w[i].key == key,
        p(w[i]),
        forall|j: int| 0 <= j < i ==> !((#[trigger] w[j]).key == key && p(w[j])),
    ensures
        newest(w, key, p) == Some(w[i]),
{
    lemma_lex_irreflexive(key);
    assert(w.contains(w[i]));
    assert forall|u: WriteVersion| #[trigger] w.contains(u) && u.key == key && p(u) implies u.commit_ts
        <= w[i].commit_ts by {
        let k = choose|k: int| 0 <= k < w.len() && w[k] == u;
        if k > i {
            assert(version_before(w[i], w[k]));
        }
    }
    lemma_newest_unique(w, key, p, w[i]);
}

/// Where a version of `key` satisfies `p`, one of them is the newest.
pub proof fn lemma_newest_exists(
    w: Seq<WriteVersion>,
    key: Seq<u8>,
    p: spec_fn(WriteVersion) -> bool,
    j: int,
)
    requires
        write_ordered(w),
        0 <= j < w.len(),
        w[j].key == key,
        p(w[j]),
    ensures
        newest(w, key, p) is Some,
    decreases j,
{
    if exists|k: int| 0 <= k < j && (#[trigger] w[k]).key == key && p(w[k]) {
        let k = choose|k: int| 0 <= k < j && (#[trigger] w[k]).key == key && p(w[k]);
        lemma_newest_exists(w, key, p, k);
    } else {
        lemma_first_is_newest(w, key, p, j);
    }
}

/// Where no version of `key` satisfies `p`, there is no newest one.
pub proof fn lemma_none_is_newest(w: Seq<WriteVersion>, key: Seq<u8>, p: spec_fn(WriteVersion) -> bool)
    requires
        forall|j: int| 0 <= j < w.len() ==> !((#[trigger] w[j]).key == key && p(w[j])),
    ensures
        newest(w, key, p) is None,
{
    assert forall|v: WriteVersion| !is_newest(w, key, p, v) by {
        if w.contains(v) {
            let k = choose|k: int| 0 <= k < w.len() && w[k] == v;
            assert(!(w[k].key == key && p(w[k])));
        }
    }
}

/// The record at position `i` of the lock family is the one that the family
/// holds for its key.
pub proof fn lemma_lock_record_at(l: Seq<LockRecord>, i: int)
    requires
        lock_ordered(l),
        0 <= i < l.len(),
    ensures
        lock_record(l, l[i].key) == Some(l[i]),
{
    let key = l[i].key;
    lemma_lex_irreflexive(key);
    let c = choose|c: int| 0 <= c < l.len() && (#[trigger] l[c]).key == key;
    if c < i {
        assert(lock_before(l[c], l[i]));
    } else if c > i {
        assert(lock_before(l[i], l[c]));
    }
}

/// The record at position `i` of the extra family is the one that the
/// family holds for its key and start timestamp.
pub proof fn lemma_status_record_at(e: Seq<StatusRecord>, i: int)
    requires
        extra_distinct(e),
        0 <= i < e.len(),
    ensures
        status_record(e, e[i].key, e[i].start_ts) == Some(e[i]),
{
    let key = e[i].key;
    let start_ts = e[i].start_ts;
    let c = choose|c: int| 0 <= c < e.len() && (#[trigger] e[c]).key == key && e[c].start_ts == start_ts;
    if c < i {
        assert(!same_slot(e[c], e[i]));
    } else if c > i {
        assert(!same_slot(e[i], e[c]));
    }
}

/// An ordered family keeps the versions of a key together: where no key
/// from position `i` on comes before `key`, and the version at `i` is of
/// another key, no version from `i` on is a version of `key`.
pub proof fn lemma_no_version_behind(w: Seq<WriteVersion>, key: Seq<u8>, i: int)
    requires
        write_ordered(w),
        0 <= i <= w.len(),
        forall|j: int| i <= j < w.len() ==> !lex_lt(#[trigger] w[j].key, key),
        i < w.len() ==> w[i].key != key,
    ensures
        forall|j: int| i <= j < w.len() ==> (#[trigger] w[j]).key != key,
{
    assert forall|j: int| i <= j < w.len() implies (#[trigger] w[j]).key != key by {
        if j > i {
            assert(version_before(w[i], w[j]));
            lemma_lex_trichotomy(w[i].key, key);
            lemma_lex_irreflexive(key);
            if w[i].key != w[j].key {
                lemma_lex_le_lt(key, w[i].key, w[j].key);
            }
        }
    }
}

} // verus!
