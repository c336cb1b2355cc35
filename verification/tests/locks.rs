use std::sync::Arc;

use mvcc_reader::{
    CloudReader, Error, Key, Lock, LockEntry, LockType, Snapshot, TimeStamp,
};

fn typed(raw: &[u8]) -> Vec<u8> {
    let mut bytes = vec![b'z'];
    bytes.extend_from_slice(raw);
    bytes
}

fn key(raw: &[u8]) -> Key {
    Key::new(typed(raw), Some(raw.to_vec()))
}

fn damaged(encoded: &[u8]) -> Key {
    Key::new(encoded.to_vec(), None)
}

fn lock(ts: u64) -> Lock {
    Lock::new(
        LockType::Put,
        b"primary".to_vec(),
        TimeStamp::new(ts),
        3000,
        Some(b"v".to_vec()),
        TimeStamp::zero(),
        2,
        TimeStamp::new(ts + 1),
    )
}

fn stored(key: &[u8], ts: u64) -> LockEntry {
    LockEntry::new(key.to_vec(), typed(key), vec![b'P', ts as u8], Some(lock(ts)))
}

fn broken(key: &[u8]) -> LockEntry {
    LockEntry::new(key.to_vec(), typed(key), vec![0xff], None)
}

fn reader(locks: Vec<LockEntry>) -> CloudReader {
    let snapshot = Snapshot::new(vec![], locks, vec![]).expect("families in order");
    CloudReader::new(Arc::new(snapshot))
}

fn five() -> CloudReader {
    reader(vec![stored(b"a", 1), stored(b"b", 2), stored(b"c", 3), stored(b"d", 4), stored(b"e", 5)])
}

fn found(keys: &[(&[u8], u64)]) -> Vec<(Key, Lock)> {
    keys.iter().map(|(k, ts)| (key(k), lock(*ts))).collect()
}

fn any(_: &Lock) -> bool {
    true
}

#[test]
fn load_lock_finds_the_lock_of_the_key() {
    let r = five();
    assert_eq!(r.load_lock(&key(b"c")), Ok(Some(lock(3))));
    assert_eq!(r.load_lock(&key(b"a")), Ok(Some(lock(1))));
}

#[test]
fn load_lock_finds_nothing_on_a_free_key() {
    let r = five();
    assert_eq!(r.load_lock(&key(b"cc")), Ok(None));
    assert_eq!(r.load_lock(&key(b"")), Ok(None));
    assert_eq!(reader(vec![]).load_lock(&key(b"a")), Ok(None));
}

#[test]
fn load_lock_takes_empty_bytes_for_no_lock() {
    let r = reader(vec![LockEntry::new(b"a".to_vec(), typed(b"a"), vec![], None)]);
    assert_eq!(r.load_lock(&key(b"a")), Ok(None));
}

#[test]
fn load_lock_fails_on_bytes_that_do_not_parse() {
    let r = reader(vec![stored(b"a", 1), broken(b"b")]);
    assert_eq!(r.load_lock(&key(b"b")), Err(Error::MalformedRecord));
    assert_eq!(r.load_lock(&key(b"a")), Ok(Some(lock(1))));
}

#[test]
fn load_lock_fails_on_a_key_without_raw_form() {
    assert_eq!(five().load_lock(&damaged(b"zc\xff")), Err(Error::KeyEncoding));
}

#[test]
fn scan_of_an_empty_range_returns_nothing() {
    let mut r = reader(vec![stored(b"a", 1), stored(b"d", 4), stored(b"e", 5)]);
    let got = r.scan_locks(Some(&key(b"b")), Some(&key(b"d")), any, 0);
    assert_eq!(got, Ok((vec![], false)));
}

#[test]
fn scan_without_bounds_returns_every_lock_in_key_order() {
    let mut r = five();
    let got = r.scan_locks(None, None, any, 0);
    assert_eq!(got, Ok((found(&[(b"a", 1), (b"b", 2), (b"c", 3), (b"d", 4), (b"e", 5)]), false)));
}

#[test]
fn scan_keeps_to_its_bounds() {
    let mut r = five();
    let b = key(b"b");
    let d = key(b"d");
    assert_eq!(r.scan_locks(Some(&b), Some(&d), any, 0), Ok((found(&[(b"b", 2), (b"c", 3)]), false)));
    assert_eq!(r.scan_locks(Some(&b), None, any, 0), Ok((found(&[(b"b", 2), (b"c", 3), (b"d", 4), (b"e", 5)]), false)));
    assert_eq!(r.scan_locks(None, Some(&d), any, 0), Ok((found(&[(b"a", 1), (b"b", 2), (b"c", 3)]), false)));
    assert_eq!(r.scan_locks(Some(&d), Some(&b), any, 0), Ok((vec![], false)));
    assert_eq!(r.scan_locks(Some(&b), Some(&b), any, 0), Ok((vec![], false)));
    let bb = key(b"bb");
    assert_eq!(r.scan_locks(Some(&bb), Some(&d), any, 0), Ok((found(&[(b"c", 3)]), false)));
    assert_eq!(r.scan_locks(Some(&b), Some(&bb), any, 0), Ok((found(&[(b"b", 2)]), false)));
}

#[test]
fn scan_returns_what_the_filter_admits() {
    let mut r = five();
    let odd = |l: &Lock| l.ts.into_inner() % 2 == 1;
    assert_eq!(r.scan_locks(None, None, odd, 0), Ok((found(&[(b"a", 1), (b"c", 3), (b"e", 5)]), false)));
    let none = |_: &Lock| false;
    assert_eq!(r.scan_locks(None, None, none, 0), Ok((vec![], false)));
    assert_eq!(r.scan_locks(None, None, none, 1), Ok((vec![], false)));
}

#[test]
fn scan_stops_at_its_limit() {
    let mut r = five();
    assert_eq!(r.scan_locks(None, None, any, 2), Ok((found(&[(b"a", 1), (b"b", 2)]), true)));
    assert_eq!(r.scan_locks(None, None, any, 1), Ok((found(&[(b"a", 1)]), true)));
    let c = key(b"c");
    assert_eq!(r.scan_locks(Some(&c), None, any, 2), Ok((found(&[(b"c", 3), (b"d", 4)]), true)));
    let even = |l: &Lock| l.ts.into_inner() % 2 == 0;
    assert_eq!(r.scan_locks(None, None, even, 1), Ok((found(&[(b"b", 2)]), true)));
}

#[test]
fn scan_under_its_limit_has_nothing_more() {
    let mut r = five();
    let all = found(&[(b"a", 1), (b"b", 2), (b"c", 3), (b"d", 4), (b"e", 5)]);
    assert_eq!(r.scan_locks(None, None, any, 6), Ok((all, false)));
    let even = |l: &Lock| l.ts.into_inner() % 2 == 0;
    assert_eq!(r.scan_locks(None, None, even, 3), Ok((found(&[(b"b", 2), (b"d", 4)]), false)));
}

#[test]
fn scan_that_reaches_its_limit_on_the_last_lock_reports_more() {
    let mut r = five();
    let all = found(&[(b"a", 1), (b"b", 2), (b"c", 3), (b"d", 4), (b"e", 5)]);
    assert_eq!(r.scan_locks(None, None, any, 5), Ok((all, true)));
    let even = |l: &Lock| l.ts.into_inner() % 2 == 0;
    assert_eq!(r.scan_locks(None, None, even, 2), Ok((found(&[(b"b", 2), (b"d", 4)]), true)));
}

#[test]
fn scan_fails_on_a_record_that_does_not_parse() {
    let mut r = reader(vec![stored(b"a", 1), stored(b"b", 2), broken(b"c"), stored(b"d", 4)]);
    assert_eq!(r.scan_locks(None, None, any, 0), Err(Error::MalformedRecord));
    assert_eq!(r.scan_locks(None, None, any, 3), Err(Error::MalformedRecord));
    let none = |_: &Lock| false;
    assert_eq!(r.scan_locks(None, None, none, 1), Err(Error::MalformedRecord));
}

#[test]
fn scan_does_not_read_past_its_limit_or_bounds() {
    let mut r = reader(vec![stored(b"a", 1), stored(b"b", 2), broken(b"c"), stored(b"d", 4)]);
    assert_eq!(r.scan_locks(None, None, any, 2), Ok((found(&[(b"a", 1), (b"b", 2)]), true)));
    let c = key(b"c");
    assert_eq!(r.scan_locks(None, Some(&c), any, 0), Ok((found(&[(b"a", 1), (b"b", 2)]), false)));
    let d = key(b"d");
    assert_eq!(r.scan_locks(Some(&d), None, any, 0), Ok((found(&[(b"d", 4)]), false)));
}

#[test]
fn scan_parses_records_with_empty_bytes_too() {
    let mut r = reader(vec![LockEntry::new(b"a".to_vec(), typed(b"a"), vec![], None)]);
    assert_eq!(r.scan_locks(None, None, any, 0), Err(Error::MalformedRecord));
}

#[test]
fn scan_fails_on_a_start_without_raw_form() {
    let mut r = five();
    let bad = damaged(b"zc\xff");
    let d = key(b"d");
    assert_eq!(r.scan_locks(Some(&bad), None, any, 0), Err(Error::KeyEncoding));
    assert_eq!(r.scan_locks(Some(&bad), Some(&d), any, 1), Err(Error::KeyEncoding));
    assert_eq!(r.scan_locks(Some(&bad), Some(&bad), any, 0), Err(Error::KeyEncoding));
    assert_eq!(reader(vec![]).scan_locks(Some(&bad), None, any, 0), Err(Error::KeyEncoding));
}

#[test]
fn scan_takes_an_end_without_raw_form_as_a_typed_key() {
    let mut empty = reader(vec![]);
    assert_eq!(empty.scan_locks(None, Some(&damaged(b"zc\xff")), any, 0), Ok((vec![], false)));
    let mut r = five();
    let after_c = damaged(b"zc\xff");
    assert_eq!(
        r.scan_locks(None, Some(&after_c), any, 0),
        Ok((found(&[(b"a", 1), (b"b", 2), (b"c", 3)]), false))
    );
    let b = key(b"b");
    assert_eq!(r.scan_locks(Some(&b), Some(&after_c), any, 0), Ok((found(&[(b"b", 2), (b"c", 3)]), false)));
    assert_eq!(r.scan_locks(Some(&b), Some(&after_c), any, 1), Ok((found(&[(b"b", 2)]), true)));
    assert_eq!(r.scan_locks(None, Some(&damaged(b"")), any, 0), Ok((vec![], false)));
    assert_eq!(r.scan_locks(None, Some(&damaged(b"y")), any, 0), Ok((vec![], false)));
    let all = found(&[(b"a", 1), (b"b", 2), (b"c", 3), (b"d", 4), (b"e", 5)]);
    assert_eq!(r.scan_locks(None, Some(&damaged(b"zz")), any, 0), Ok((all, false)));
}

#[test]
fn scan_orders_the_end_by_its_typed_form() {
    let mut r = five();
    let end = Key::new(b"zc".to_vec(), Some(b"e".to_vec()));
    assert_eq!(r.scan_locks(None, Some(&end), any, 0), Ok((found(&[(b"a", 1), (b"b", 2)]), false)));
}

#[test]
fn scan_with_a_malformed_record_behind_a_damaged_end_succeeds() {
    let mut r = reader(vec![stored(b"a", 1), stored(b"b", 2), broken(b"c"), stored(b"d", 4)]);
    assert_eq!(
        r.scan_locks(None, Some(&damaged(b"zb\xff")), any, 0),
        Ok((found(&[(b"a", 1), (b"b", 2)]), false))
    );
    assert_eq!(r.scan_locks(None, Some(&damaged(b"zc\xff")), any, 0), Err(Error::MalformedRecord));
}

#[test]
fn scan_returns_copies_of_the_stored_locks() {
    let mut r = reader(vec![LockEntry::new(
        b"k".to_vec(),
        typed(b"k"),
        vec![1, 2, 3],
        Some(Lock::new(
            LockType::Pessimistic,
            b"pk".to_vec(),
            TimeStamp::new(77),
            12,
            None,
            TimeStamp::new(78),
            1,
            TimeStamp::new(79),
        )),
    )]);
    let (locks, more) = r.scan_locks(None, None, any, 0).unwrap();
    assert!(!more);
    assert_eq!(locks.len(), 1);
    assert_eq!(locks[0].0.to_raw(), Ok(b"k".to_vec()));
    assert_eq!(locks[0].1.lock_type, LockType::Pessimistic);
    assert_eq!(locks[0].1.primary, b"pk".to_vec());
    assert_eq!(locks[0].1.ts, TimeStamp::new(77));
    assert_eq!(locks[0].1.ttl, 12);
    assert_eq!(locks[0].1.short_value, None);
    assert_eq!(locks[0].1.for_update_ts, TimeStamp::new(78));
    assert_eq!(locks[0].1.txn_size, 1);
    assert_eq!(locks[0].1.min_commit_ts, TimeStamp::new(79));
    assert_eq!(locks[0].1.clone(), locks[0].1);
}
