//! Laws of the reader: what its operations guarantee together.

use vstd::prelude::*;
use crate::bytes::lex_lt;
use crate::model::{
    is_newest, lemma_newest_exists, lemma_newest_unique, lock_before, newest, visible_at,
    LockRecord, SnapshotView, WriteVersion,
};
use crate::reader::{
    commit_record_result, get_result, get_write_result, option_write_view, seek_write_result,
};
use crate::scan::{
    decides, hit_pred, hits, in_range_pred, lemma_filter_keeps_order, raw_of, scan_result, window,
};
use crate::types::{
    option_bytes_view, Error, Key, Lock, TimeStamp, TxnCommitRecord, Value, Write,
};

verus! {

/// The latest commit timestamp that a reader at `ts` sees: `ts` itself, or
/// any at all where `ts` is zero.
pub open spec fn ceiling(ts: TimeStamp) -> u64 {
    if ts.0 == 0 {
        u64::MAX
    } else {
        ts.0
    }
}

/// `v` is the latest commit to `key` that is not after `ts`.
pub open spec fn latest_commit_until(w: Seq<WriteVersion>, key: Seq<u8>, ts: u64, v: WriteVersion) -> bool {
    &&& w.contains(v)
    &&& v.key == key
    &&& v.commit_ts <= ts
    &&& forall|u: WriteVersion| #[trigger] w.contains(u) && u.key == key && u.commit_ts <= ts ==> u.commit_ts <= v.commit_ts
}

/// A read returns the value of the latest commit to the key that is not
/// after the reader's ceiling, which is the timestamp of the read unless
/// that is zero. It returns nothing only where there is no such commit or
/// the latest is a delete.
pub proof fn lemma_get_returns_latest_commit(
    snap: SnapshotView,
    key: Seq<u8>,
    ts: TimeStamp,
    r: Result<Option<Value>, Error>,
)
    requires
        snap.wf(),
        get_result(snap, Some(key), ts, r),
    ensures
        r matches Ok(got) && match got {
            Some(value) => value@.len() > 0 && exists|v: WriteVersion|
                #[trigger] latest_commit_until(snap.write, key, ceiling(ts), v) && v.value == value@,
            None => forall|v: WriteVersion| #[trigger]
                latest_commit_until(snap.write, key, ceiling(ts), v) ==> v.value.len() == 0,
        },
{
    let w = snap.write;
    let p = visible_at(ts.0);
    assert forall|v: WriteVersion| #[trigger] latest_commit_until(w, key, ceiling(ts), v) implies newest(
        w,
        key,
        p,
    ) == Some(v) by {
        assert(is_newest(w, key, p, v));
        lemma_newest_unique(w, key, p, v);
    }
    if let Some(v) = newest(w, key, p) {
        assert(is_newest(w, key, p, v));
        assert(latest_commit_until(w, key, ceiling(ts), v));
    }
}

/// Where the key has a commit that is not after `ts`, one of them is the
/// latest: a reader at `ts` then reads that commit.
pub proof fn lemma_latest_commit_exists(snap: SnapshotView, key: Seq<u8>, ts: u64, u: WriteVersion)
    requires
        snap.wf(),
        snap.write.contains(u),
        u.key == key,
        u.commit_ts <= ts,
    ensures
        exists|v: WriteVersion| #[trigger] latest_commit_until(snap.write, key, ts, v),
{
    let w = snap.write;
    let p = |v: WriteVersion| v.commit_ts <= ts;
    let j = choose|j: int| 0 <= j < w.len() && w[j] == u;
    lemma_newest_exists(w, key, p, j);
    let v = newest(w, key, p)->0;
    assert(is_newest(w, key, p, v));
    assert(latest_commit_until(w, key, ts, v));
}

/// Of two readers of one key the later one sees the later commit: where the
/// reader at `ts1` sees a commit, the reader at `ts2` sees that commit or
/// one that came after it.
pub proof fn lemma_later_reader_sees_later_commit(
    snap: SnapshotView,
    key: Seq<u8>,
    ts1: TimeStamp,
    ts2: TimeStamp,
    v1: WriteVersion,
)
    requires
        snap.wf(),
        0 < ts1.0 < ts2.0,
        latest_commit_until(snap.write, key, ts1.0, v1),
    ensures
        exists|v2: WriteVersion| #[trigger]
            latest_commit_until(snap.write, key, ts2.0, v2) && v1.commit_ts <= v2.commit_ts,
{
    lemma_latest_commit_exists(snap, key, ts2.0, v1);
    let v2 = choose|v2: WriteVersion| #[trigger] latest_commit_until(snap.write, key, ts2.0, v2);
    assert(latest_commit_until(snap.write, key, ts2.0, v2) && v1.commit_ts <= v2.commit_ts);
}

/// A read does not depend on what was committed after its ceiling: two
/// snapshots that hold the same commits to the key up to the ceiling give
/// the same value.
pub proof fn lemma_get_ignores_later_commits(
    a: SnapshotView,
    b: SnapshotView,
    key: Seq<u8>,
    ts: TimeStamp,
    ra: Result<Option<Value>, Error>,
    rb: Result<Option<Value>, Error>,
)
    requires
        a.wf(),
        b.wf(),
        forall|v: WriteVersion|
            #![trigger a.write.contains(v)]
            #![trigger b.write.contains(v)]
            v.key == key && v.commit_ts <= ceiling(ts) ==> (a.write.contains(v) <==> b.write.contains(v)),
        get_result(a, Some(key), ts, ra),
        get_result(b, Some(key), ts, rb),
    ensures
        ra matches Ok(x) && rb matches Ok(y) && option_bytes_view(x) == option_bytes_view(y),
{
    let p = visible_at(ts.0);
    if let Some(v) = newest(a.write, key, p) {
        assert(is_newest(a.write, key, p, v));
        assert(is_newest(b.write, key, p, v));
        lemma_newest_unique(b.write, key, p, v);
    }
    if let Some(v) = newest(b.write, key, p) {
        assert(is_newest(b.write, key, p, v));
        assert(is_newest(a.write, key, p, v));
        lemma_newest_unique(a.write, key, p, v);
    }
}

/// The write record that `get_write` returns is the second component of
/// what `seek_write` returns for the same key and timestamp, and the two
/// fail together.
pub proof fn lemma_get_write_agrees_with_seek_write(
    snap: SnapshotView,
    key: Option<Seq<u8>>,
    ts: TimeStamp,
    write: Result<Option<Write>, Error>,
    sought: Result<Option<(TimeStamp, Write)>, Error>,
)
    requires
        get_write_result(snap, key, ts, write),
        seek_write_result(snap, key, ts, sought),
    ensures
        match (write, sought) {
            (Ok(w), Ok(Some(pair))) => option_write_view(w) == Some(pair.1@),
            (Ok(w), Ok(None)) => w is None,
            (Err(e1), Err(e2)) => e1 == e2,
            _ => false,
        },
{
}

/// `get` and `seek_write` read the same bytes: `get` returns a value just
/// where `seek_write` returns a record that carries it.
pub proof fn lemma_get_agrees_with_seek_write(
    snap: SnapshotView,
    key: Option<Seq<u8>>,
    ts: TimeStamp,
    value: Result<Option<Value>, Error>,
    sought: Result<Option<(TimeStamp, Write)>, Error>,
)
    requires
        get_result(snap, key, ts, value),
        seek_write_result(snap, key, ts, sought),
    ensures
        match (value, sought) {
            (Ok(v), Ok(Some(pair))) => option_bytes_view(v) == pair.1@.short_value,
            (Ok(v), Ok(None)) => v is None,
            (Err(e1), Err(e2)) => e1 == e2,
            _ => false,
        },
{
}

/// The outcomes `first` and `second` are the same: the same commit record,
/// or the same error.
pub open spec fn same_outcome(first: Result<TxnCommitRecord, Error>, second: Result<TxnCommitRecord, Error>) -> bool {
    match (first, second) {
        (Ok(a), Ok(b)) => a@ == b@,
        (Err(a), Err(b)) => a == b,
        _ => false,
    }
}

/// Resolving a transaction twice against one snapshot gives the same
/// outcome both times. (A resolution leaves the reader as it was, so the
/// second call meets the snapshot of the first.)
pub proof fn lemma_commit_record_idempotent(
    snap: SnapshotView,
    key: Option<Seq<u8>>,
    start_ts: TimeStamp,
    first: Result<TxnCommitRecord, Error>,
    second: Result<TxnCommitRecord, Error>,
)
    requires
        commit_record_result(snap, key, start_ts, first),
        commit_record_result(snap, key, start_ts, second),
    ensures
        same_outcome(first, second),
{
}

/// The window holds a hit behind the last of `locks`.
pub open spec fn further_hit<F: Fn(&Lock) -> bool>(w: Seq<LockRecord>, f: F, locks: Seq<(Key, Lock)>) -> bool {
    exists|rec: LockRecord|
        #[trigger] w.contains(rec) && hit_pred(f)(rec) && (locks.len() > 0 ==> lex_lt(
            raw_of(locks.last()),
            rec.key,
        ))
}

/// A scan with a limit returns no more locks than the limit. Unless the
/// window holds exactly `limit` hits, it reports more just where it returns
/// `limit` locks and a further hit stands behind the last of them.
pub proof fn lemma_scan_respects_limit<F: Fn(&Lock) -> bool>(
    snap: SnapshotView,
    start: Option<Seq<u8>>,
    end: Option<Seq<u8>>,
    f: F,
    limit: usize,
    r: Result<(Vec<(Key, Lock)>, bool), Error>,
)
    requires
        snap.wf(),
        limit > 0,
        decides(f),
        scan_result(snap, start, end, f, limit, r),
        r is Ok,
        hits(window(snap.lock, start, end), f).len() != limit,
    ensures
        r matches Ok((locks, more)) && locks.len() <= limit && (more <==> locks.len() == limit
            && further_hit(window(snap.lock, start, end), f, locks@)),
{
    let w = window(snap.lock, start, end);
    let h = hits(w, f);
    let (locks, more) = r->Ok_0;
    if h.len() > limit {
        let rec = h[limit as int];
        lemma_filter_keeps_order(snap.lock, in_range_pred(start, end));
        lemma_filter_keeps_order(w, hit_pred(f));
        assert(h.contains(rec));
        w.lemma_filter_contains_rev(hit_pred(f), rec);
        w.lemma_filter_pred(hit_pred(f), limit as int);
        assert(lock_before(h[limit - 1], h[limit as int]));
        assert(h.take(limit as int).last() == h[limit - 1]);
        assert(further_hit(w, f, locks@));
    }
}

} // verus!
