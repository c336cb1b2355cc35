use mvcc_reader::steps::{
    holds_lock, item_value, item_write, lock_in_bounds, old_value, status_commit, take_lock,
    version_in_walk, LockStep,
};
use mvcc_reader::{
    ExtraEntry, Key, OldValue, TimeStamp, TxnCommitRecord, Write, WriteEntry, WriteType,
};

fn version(key: &[u8], start_ts: u64, commit_ts: u64, value: &[u8]) -> WriteEntry {
    WriteEntry::new(key.to_vec(), start_ts, commit_ts, value.to_vec())
}

#[test]
fn bytes_of_an_item_are_its_value_unless_empty() {
    assert_eq!(item_value(b"x"), Some(b"x".to_vec()));
    assert_eq!(item_value(&[0]), Some(vec![0]));
    assert_eq!(item_value(b""), None);
}

#[test]
fn item_stands_for_a_put_or_a_delete() {
    assert_eq!(
        item_write(&version(b"a", 5, 10, b"x")),
        (TimeStamp::new(10), Write::new(WriteType::Put, TimeStamp::new(5), Some(b"x".to_vec())))
    );
    assert_eq!(
        item_write(&version(b"a", 5, 10, b"")),
        (TimeStamp::new(10), Write::new(WriteType::Delete, TimeStamp::new(5), None))
    );
}

#[test]
fn walk_through_versions_ends_where_the_key_changes() {
    assert!(version_in_walk(b"a", b"a"));
    assert!(version_in_walk(b"", b""));
    assert!(!version_in_walk(b"a", b"ab"));
    assert!(!version_in_walk(b"a", b"b"));
    assert!(!version_in_walk(b"ab", b"a"));
}

#[test]
fn status_record_gives_a_rollback_or_a_lock() {
    let ts = TimeStamp::new(5);
    assert_eq!(status_commit(None, ts), TxnCommitRecord::NotFound { overlapped_write: None });
    assert_eq!(
        status_commit(Some(&ExtraEntry::new(b"a".to_vec(), 5, 0)), ts),
        TxnCommitRecord::SingleRecord {
            commit_ts: TimeStamp::new(0),
            write: Write::new(WriteType::Rollback, ts, None),
        }
    );
    assert_eq!(
        status_commit(Some(&ExtraEntry::new(b"a".to_vec(), 5, 9)), ts),
        TxnCommitRecord::SingleRecord {
            commit_ts: TimeStamp::new(9),
            write: Write::new(WriteType::Lock, ts, None),
        }
    );
}

#[test]
fn empty_bytes_hold_no_lock() {
    assert!(!holds_lock(b""));
    assert!(holds_lock(&[0]));
    assert!(holds_lock(b"lock"));
}

#[test]
fn old_value_is_derived_from_the_write() {
    assert_eq!(old_value(None), OldValue::NoValue);
    assert_eq!(old_value(Some(Write::new(WriteType::Delete, TimeStamp::new(1), None))), OldValue::NoValue);
    assert_eq!(
        old_value(Some(Write::new(WriteType::Put, TimeStamp::new(1), Some(b"v".to_vec())))),
        OldValue::Value { value: b"v".to_vec() }
    );
}

#[test]
fn scan_goes_on_while_the_typed_key_is_before_the_end() {
    let end = Key::new(b"m".to_vec(), None);
    assert!(lock_in_bounds(b"a", Some(&end)));
    assert!(lock_in_bounds(b"", Some(&end)));
    assert!(lock_in_bounds(b"lz", Some(&end)));
    assert!(!lock_in_bounds(b"m", Some(&end)));
    assert!(!lock_in_bounds(b"ma", Some(&end)));
    assert!(!lock_in_bounds(b"z", Some(&end)));
    assert!(lock_in_bounds(b"z", None));
    let by_typed = Key::new(b"m".to_vec(), Some(b"a".to_vec()));
    assert!(lock_in_bounds(b"b", Some(&by_typed)));
}

#[test]
fn scan_takes_what_the_filter_admits_up_to_the_limit() {
    assert_eq!(take_lock(0, 0, false), LockStep::Skip);
    assert_eq!(take_lock(0, 0, true), LockStep::Take);
    assert_eq!(take_lock(7, 0, true), LockStep::Take);
    assert_eq!(take_lock(0, 3, true), LockStep::Take);
    assert_eq!(take_lock(1, 3, true), LockStep::Take);
    assert_eq!(take_lock(2, 3, true), LockStep::TakeAndStop);
    assert_eq!(take_lock(2, 3, false), LockStep::Skip);
    assert_eq!(take_lock(0, 1, true), LockStep::TakeAndStop);
}
