//! What a scan of the lock family returns: the records between two bounds
//! that a filter admits, up to a limit. The lower bound is the raw form of
//! a key, and the records from it on are those whose key is not before it.
//! The upper bound is a typed key, which need not have a raw form: the
//! records before it are those whose key, as a typed key, comes before it.

use vstd::prelude::*;
use crate::bytes::lex_lt;
use crate::model::{lock_before, lock_ordered, lock_record, LockRecord, SnapshotView};
use crate::types::{Error, Key, KeyView, Lock, LockView};

verus! {

/// The record `r` lies between the bounds, each bound applied only where
/// it is given: its key is not before the raw form `start`, and the typed
/// form of its key is before the typed form `end`.
pub open spec fn in_range(r: LockRecord, start: Option<Seq<u8>>, end: Option<Seq<u8>>) -> bool {
    &&& start matches Some(s) ==> !lex_lt(r.key, s)
    &&& end matches Some(e) ==> lex_lt(r.typed_key, e)
}

/// The records that lie between the bounds.
pub open spec fn in_range_pred(start: Option<Seq<u8>>, end: Option<Seq<u8>>) -> spec_fn(LockRecord) -> bool {
    |r: LockRecord| in_range(r, start, end)
}

/// The part of the lock family that a scan between `start` and `end` walks,
/// in key order.
pub open spec fn window(l: Seq<LockRecord>, start: Option<Seq<u8>>, end: Option<Seq<u8>>) -> Seq<LockRecord> {
    l.filter(in_range_pred(start, end))
}

/// The filter `f` may answer `true` for the lock record `l`.
pub open spec fn admits<F: Fn(&Lock) -> bool>(f: F, l: LockView) -> bool {
    exists|x: Lock| #[trigger] call_ensures(f, (&x,), true) && x@ == l
}

/// The filter `f` is a function of the lock record: its contract leaves one
/// answer for each.
pub open spec fn decides<F: Fn(&Lock) -> bool>(f: F) -> bool {
    forall|x: Lock, y: Lock, a: bool, b: bool|
        x@ == y@ && #[trigger] call_ensures(f, (&x,), a) && #[trigger] call_ensures(f, (&y,), b) ==> a
            == b
}

/// The records that parse into a lock that `f` admits.
pub open spec fn hit_pred<F: Fn(&Lock) -> bool>(f: F) -> spec_fn(LockRecord) -> bool {
    |r: LockRecord| r.lock matches Some(l) && admits(f, l)
}

/// The records of `s` that parse into a lock that `f` admits, in the order
/// of `s`.
pub open spec fn hits<F: Fn(&Lock) -> bool>(s: Seq<LockRecord>, f: F) -> Seq<LockRecord> {
    s.filter(hit_pred(f))
}

/// A scan of `w` with `limit` comes upon a record that does not parse: one
/// that has fewer than `limit` hits before it, or any where the limit is
/// zero.
pub open spec fn meets_malformed<F: Fn(&Lock) -> bool>(w: Seq<LockRecord>, f: F, limit: usize) -> bool {
    exists|i: int|
        0 <= i < w.len() && (#[trigger] w[i]).lock is None && (limit == 0 || hits(w.take(i), f).len()
            < limit)
}

/// What a scan of the window `w` returns where the filter `f` is a function
/// of the lock record. It fails where it comes upon a record that does not
/// parse. Else it returns the hits of `w`: all of them with `false` where
/// the limit is zero or `w` has fewer than `limit` hits, and else the first
/// `limit` of them with `true`.
pub open spec fn scan_outcome<F: Fn(&Lock) -> bool>(w: Seq<LockRecord>, f: F, limit: usize) -> Result<
    (Seq<LockRecord>, bool),
    Error,
> {
    if meets_malformed(w, f, limit) {
        Err(Error::MalformedRecord)
    } else {
        let h = hits(w, f);
        if limit > 0 && h.len() >= limit {
            Ok((h.take(limit as int), true))
        } else {
            Ok((h, false))
        }
    }
}

/// The pairs `locks` are the keys and locks of the records `recs`, one for
/// one.
pub open spec fn pairs_match(locks: Seq<(Key, Lock)>, recs: Seq<LockRecord>) -> bool {
    &&& locks.len() == recs.len()
    &&& forall|k: int|
        0 <= k < locks.len() ==> (#[trigger] locks[k]).0@ == (KeyView {
            encoded: recs[k].typed_key,
            raw: Some(recs[k].key),
        }) && Some(locks[k].1@) == recs[k].lock
}

/// The raw form of the key of `pair`.
pub open spec fn raw_of(pair: (Key, Lock)) -> Seq<u8> {
    pair.0@.raw->0
}

/// `pair` may stand in the result of a scan: its key has a raw form, the
/// lock family holds under that key a record that lies between the bounds,
/// with the typed form and the lock of the pair, and `f` admits the lock.
pub open spec fn returned_rightly<F: Fn(&Lock) -> bool>(
    snap: SnapshotView,
    start: Option<Seq<u8>>,
    end: Option<Seq<u8>>,
    f: F,
    pair: (Key, Lock),
) -> bool {
    &&& pair.0@.raw is Some
    &&& lock_record(snap.lock, raw_of(pair)) matches Some(rec) && in_range(rec, start, end)
        && rec.typed_key == pair.0@.encoded && rec.lock == Some(pair.1@)
    &&& admits(f, pair.1@)
}

/// What holds of every successful scan, whatever the filter: the limit is
/// kept, `more` tells that it was reached, each pair is returned rightly,
/// the keys ascend, and every record of the window parses, up to the key
/// of the last pair where the limit was reached.
pub open spec fn scan_sound<F: Fn(&Lock) -> bool>(
    snap: SnapshotView,
    start: Option<Seq<u8>>,
    end: Option<Seq<u8>>,
    f: F,
    limit: usize,
    locks: Seq<(Key, Lock)>,
    more: bool,
) -> bool {
    &&& limit > 0 ==> locks.len() <= limit
    &&& more <==> limit > 0 && locks.len() == limit
    &&& forall|k: int| 0 <= k < locks.len() ==> returned_rightly(snap, start, end, f, #[trigger] locks[k])
    &&& forall|a: int, b: int|
        0 <= a < b < locks.len() ==> lex_lt(raw_of(#[trigger] locks[a]), raw_of(#[trigger] locks[b]))
    &&& forall|k: int|
        0 <= k < window(snap.lock, start, end).len() && (more ==> locks.len() > 0 && !lex_lt(
            raw_of(locks.last()),
            (#[trigger] window(snap.lock, start, end)[k]).key,
        )) ==> window(snap.lock, start, end)[k].lock is Some
}

/// What `scan_locks` returns on the snapshot `snap` for the lower bound
/// `start`, a raw form, and the upper bound `end`, a typed form.
pub open spec fn scan_result<F: Fn(&Lock) -> bool>(
    snap: SnapshotView,
    start: Option<Seq<u8>>,
    end: Option<Seq<u8>>,
    f: F,
    limit: usize,
    r: Result<(Vec<(Key, Lock)>, bool), Error>,
) -> bool {
    let w = window(snap.lock, start, end);
    &&& match r {
        Ok((locks, more)) => scan_sound(snap, start, end, f, limit, locks@, more),
        Err(e) => e == Error::MalformedRecord && exists|k: int|
            0 <= k < w.len() && (#[trigger] w[k]).lock is None,
    }
    &&& decides(f) ==> match scan_outcome(w, f, limit) {
        Ok((recs, m)) => r matches Ok((locks, more)) && more == m && pairs_match(locks@, recs),
        Err(e) => r matches Err(err) && err == e,
    }
}

/// An answer of the filter admits the lock where it is `true`; where the
/// filter is a function of the lock record, the answer tells whether the
/// filter admits the lock.
pub proof fn lemma_answer_tells_admission<F: Fn(&Lock) -> bool>(f: F, lock: Lock, answer: bool)
    requires
        call_ensures(f, (&lock,), answer),
    ensures
        answer ==> admits(f, lock@),
        decides(f) ==> admits(f, lock@) == answer,
{
    if decides(f) && admits(f, lock@) {
        let x = choose|x: Lock| #[trigger] call_ensures(f, (&x,), true) && x@ == lock@;
        assert(call_ensures(f, (&x,), true) && call_ensures(f, (&lock,), answer));
    }
}

/// The scan has walked the records from `lo` up to `i`: those before `lo`
/// lie outside the bounds, those from `lo` on lie inside and parse.
pub open spec fn walked(
    l: Seq<LockRecord>,
    start: Option<Seq<u8>>,
    end: Option<Seq<u8>>,
    lo: int,
    i: int,
) -> bool {
    &&& 0 <= lo <= i <= l.len()
    &&& forall|j: int| 0 <= j < lo ==> !in_range(#[trigger] l[j], start, end)
    &&& forall|j: int| lo <= j < i ==> in_range(#[trigger] l[j], start, end) && l[j].lock is Some
}

proof fn lemma_filter_tail<A>(t: Seq<A>, p: spec_fn(A) -> bool, lo: int)
    requires
        0 <= lo <= t.len(),
        forall|j: int| 0 <= j < lo ==> !p(#[trigger] t[j]),
        forall|j: int| lo <= j < t.len() ==> p(#[trigger] t[j]),
    ensures
        t.filter(p) == t.skip(lo),
    decreases t.len(),
{
    reveal(Seq::filter);
    if t.len() == 0 {
        assert(t.filter(p) =~= t.skip(lo));
    } else {
        let d = t.drop_last();
        if t.len() > lo {
            lemma_filter_tail(d, p, lo);
            assert(d.skip(lo).push(t.last()) =~= t.skip(lo));
        } else {
            lemma_filter_tail(d, p, lo - 1);
            assert(d.skip(lo - 1) =~= t.skip(lo));
        }
    }
}

proof fn lemma_filter_none<A>(t: Seq<A>, p: spec_fn(A) -> bool)
    requires
        forall|j: int| 0 <= j < t.len() ==> !p(#[trigger] t[j]),
    ensures
        t.filter(p).len() == 0,
    decreases t.len(),
{
    reveal(Seq::filter);
    if t.len() > 0 {
        lemma_filter_none(t.drop_last(), p);
    }
}

/// Where `p` fails before `lo` and holds from `lo` up to `m`, the filter
/// of `s` begins with the items of `s` from `lo` up to `m`.
proof fn lemma_filter_prefix<A>(s: Seq<A>, p: spec_fn(A) -> bool, lo: int, m: int)
    requires
        0 <= lo <= m <= s.len(),
        forall|j: int| 0 <= j < lo ==> !p(#[trigger] s[j]),
        forall|j: int| lo <= j < m ==> p(#[trigger] s[j]),
    ensures
        s.filter(p) == s.subrange(lo, m) + s.skip(m).filter(p),
        s.filter(p).len() >= m - lo,
        s.filter(p).take(m - lo) == s.subrange(lo, m),
{
    let a = s.take(m);
    let b = s.skip(m);
    assert(a + b =~= s);
    Seq::filter_distributes_over_add(a, b, p);
    lemma_filter_tail(a, p, lo);
    assert(a.skip(lo) =~= s.subrange(lo, m));
    assert((s.subrange(lo, m) + b.filter(p)).take(m - lo) =~= s.subrange(lo, m));
}

/// The window begins with the records that the scan has walked.
pub proof fn lemma_window_prefix(
    l: Seq<LockRecord>,
    start: Option<Seq<u8>>,
    end: Option<Seq<u8>>,
    lo: int,
    i: int,
)
    requires
        walked(l, start, end, lo, i),
    ensures
        window(l, start, end) == l.subrange(lo, i) + l.skip(i).filter(in_range_pred(start, end)),
        window(l, start, end).len() >= i - lo,
        window(l, start, end).take(i - lo) == l.subrange(lo, i),
{
    lemma_filter_prefix(l, in_range_pred(start, end), lo, i);
}

/// The hits of a longer prefix are no fewer.
proof fn lemma_hits_grow<F: Fn(&Lock) -> bool>(w: Seq<LockRecord>, f: F, n: int, k: int)
    requires
        0 <= n <= k <= w.len(),
    ensures
        hits(w.take(n), f).len() <= hits(w.take(k), f).len(),
        hits(w.take(k), f) == hits(w.take(n), f) + hits(w.subrange(n, k), f),
{
    assert(w.take(n) + w.subrange(n, k) =~= w.take(k));
    Seq::filter_distributes_over_add(w.take(n), w.subrange(n, k), hit_pred(f));
}

/// One more record walked: it joins the hits if it parses into a lock that
/// `f` admits.
pub proof fn lemma_hits_step<F: Fn(&Lock) -> bool>(l: Seq<LockRecord>, f: F, lo: int, i: int)
    requires
        0 <= lo <= i < l.len(),
    ensures
        hits(l.subrange(lo, i + 1), f) == if hit_pred(f)(l[i]) {
            hits(l.subrange(lo, i), f).push(l[i])
        } else {
            hits(l.subrange(lo, i), f)
        },
{
    assert(l.subrange(lo, i).push(l[i]) =~= l.subrange(lo, i + 1));
    l.subrange(lo, i).lemma_filter_push(l[i], hit_pred(f));
}

/// A scan that walks up to the end of the window has walked the window; if
/// it has not reached the limit, it returns all the hits, and `false`.
pub proof fn lemma_scan_exhausted<F: Fn(&Lock) -> bool>(
    l: Seq<LockRecord>,
    start: Option<Seq<u8>>,
    end: Option<Seq<u8>>,
    f: F,
    limit: usize,
    lo: int,
    i: int,
)
    requires
        walked(l, start, end, lo, i),
        forall|j: int| i <= j < l.len() ==> !in_range(#[trigger] l[j], start, end),
    ensures
        window(l, start, end) == l.subrange(lo, i),
        limit == 0 || hits(l.subrange(lo, i), f).len() < limit ==> scan_outcome(
            window(l, start, end),
            f,
            limit,
        ) == Ok::<(Seq<LockRecord>, bool), Error>((hits(l.subrange(lo, i), f), false)),
{
    let w = window(l, start, end);
    lemma_window_prefix(l, start, end, lo, i);
    lemma_filter_none(l.skip(i), in_range_pred(start, end));
    assert(w =~= l.subrange(lo, i));
    assert(!meets_malformed(w, f, limit));
}

/// A scan that finds its last permitted hit in the record before `m`
/// returns the hits walked so far, and `true`.
pub proof fn lemma_scan_full<F: Fn(&Lock) -> bool>(
    l: Seq<LockRecord>,
    start: Option<Seq<u8>>,
    end: Option<Seq<u8>>,
    f: F,
    limit: usize,
    lo: int,
    m: int,
)
    requires
        walked(l, start, end, lo, m),
        limit > 0,
        hits(l.subrange(lo, m), f).len() == limit,
    ensures
        scan_outcome(window(l, start, end), f, limit) == Ok::<(Seq<LockRecord>, bool), Error>(
            (hits(l.subrange(lo, m), f), true),
        ),
{
    let w = window(l, start, end);
    let n = m - lo;
    lemma_window_prefix(l, start, end, lo, m);
    assert forall|k: int| 0 <= k < w.len() && (#[trigger] w[k]).lock is None implies !(limit == 0
        || hits(w.take(k), f).len() < limit) by {
        if k < n {
            assert(w[k] == w.take(n)[k]);
            assert(w[k] == l[lo + k]);
        } else {
            lemma_hits_grow(w, f, n, k);
        }
    }
    assert(!meets_malformed(w, f, limit));
    lemma_hits_grow(w, f, n, w.len() as int);
    assert(w.take(w.len() as int) =~= w);
    assert(hits(w, f).take(limit as int) =~= hits(l.subrange(lo, m), f));
}

/// A record that does not parse, met inside the bounds, is a record of the
/// window; a scan that comes upon it before it has reached the limit fails.
pub proof fn lemma_scan_malformed<F: Fn(&Lock) -> bool>(
    l: Seq<LockRecord>,
    start: Option<Seq<u8>>,
    end: Option<Seq<u8>>,
    f: F,
    limit: usize,
    lo: int,
    i: int,
)
    requires
        walked(l, start, end, lo, i),
        i < l.len(),
        in_range(l[i], start, end),
        l[i].lock is None,
    ensures
        i - lo < window(l, start, end).len(),
        window(l, start, end)[i - lo] == l[i],
        limit == 0 || hits(l.subrange(lo, i), f).len() < limit ==> scan_outcome(
            window(l, start, end),
            f,
            limit,
        ) == Err::<(Seq<LockRecord>, bool), Error>(Error::MalformedRecord),
{
    let w = window(l, start, end);
    let p = in_range_pred(start, end);
    lemma_filter_prefix(l, p, lo, i + 1);
    assert(w.take(i + 1 - lo)[i - lo] == l.subrange(lo, i + 1)[i - lo]);
    assert(w.take(i - lo) =~= l.subrange(lo, i)) by {
        assert(w.take(i + 1 - lo).take(i - lo) =~= w.take(i - lo));
        assert(l.subrange(lo, i + 1).take(i - lo) =~= l.subrange(lo, i));
    }
    if limit == 0 || hits(l.subrange(lo, i), f).len() < limit {
        assert(meets_malformed(w, f, limit));
    }
}

/// Filtering an ordered lock family leaves it ordered.
pub proof fn lemma_filter_keeps_order(s: Seq<LockRecord>, p: spec_fn(LockRecord) -> bool)
    requires
        lock_ordered(s),
    ensures
        lock_ordered(s.filter(p)),
    decreases s.len(),
{
    reveal(Seq::filter);
    if s.len() > 0 {
        let d = s.drop_last();
        assert forall|a: int, b: int| 0 <= a < b < d.len() implies lock_before(#[trigger] d[a], #[trigger] d[b]) by {
            assert(lock_before(s[a], s[b]));
        }
        lemma_filter_keeps_order(d, p);
        if p(s.last()) {
            let kept = d.filter(p);
            let all = kept.push(s.last());
            assert forall|a: int, b: int| 0 <= a < b < all.len() implies lock_before(
                #[trigger] all[a],
                #[trigger] all[b],
            ) by {
                if b == kept.len() {
                    assert(kept.contains(kept[a]));
                    d.lemma_filter_contains_rev(p, kept[a]);
                    let j = choose|j: int| 0 <= j < d.len() && d[j] == kept[a];
                    assert(lock_before(s[j], s[s.len() - 1]));
                } else {
                    assert(lock_before(kept[a], kept[b]));
                }
            }
        }
    }
}

/// In an ordered family, the records of the window up to the key of the
/// last record walked are records that the scan has walked: they parse.
pub proof fn lemma_walked_records_parse(
    l: Seq<LockRecord>,
    start: Option<Seq<u8>>,
    end: Option<Seq<u8>>,
    lo: int,
    m: int,
)
    requires
        lock_ordered(l),
        walked(l, start, end, lo, m),
        lo < m,
    ensures
        forall|k: int|
            0 <= k < window(l, start, end).len() && !lex_lt(
                l[m - 1].key,
                (#[trigger] window(l, start, end)[k]).key,
            ) ==> window(l, start, end)[k].lock is Some,
{
    let w = window(l, start, end);
    let n = m - lo;
    lemma_window_prefix(l, start, end, lo, m);
    lemma_filter_keeps_order(l, in_range_pred(start, end));
    assert(w.take(n)[n - 1] == l.subrange(lo, m)[n - 1]);
    assert forall|k: int| 0 <= k < w.len() && !lex_lt(l[m - 1].key, (#[trigger] w[k]).key) implies w[k].lock is Some by {
        if k >= n {
            assert(lock_before(w[n - 1], w[k]));
        } else {
            assert(w[k] == w.take(n)[k]);
            assert(w[k] == l[lo + k]);
        }
    }
}

} // verus!
